//! Parsing of packets.
use crate::bytes;
use crate::bytes::{get_u16_le, get_u32_le, get_u64_le};
use crate::container::v1::flow;
use crate::container::v1::syntax;
use crate::container::v1::wire;
use crate::container::v1::wire::{
    build_stream_index, decode_front, decode_header, packet_stream_indexed, StreamIndex,
};
use crate::container::v1::{
    ContainerError, FileHeader, Front, Packet, PacketKind, StreamDesc, DEFAULT_MAX_PACKET,
};
use crate::kernels::KernelSet;
use crate::limits::Limits;
use std::collections::HashMap;
use vstd::prelude::*;

verus! {

/// Borrowed view of one validated packet in a contiguous input range.
#[derive(Debug, Clone, Copy, PartialEq, Eq)]
pub struct PacketView<'a> {
    /// Packet category.
    pub kind: PacketKind,
    /// Packet flags (zero in V1).
    pub flags: u8,
    /// Target stream identifier.
    pub stream_id: u16,
    /// Presentation timestamp.
    pub pts: u64,
    /// Packet duration.
    pub duration: u32,
    /// Borrowed codec/metadata payload.
    pub payload: &'a [u8],
}

impl PacketView<'_> {
    pub open spec fn model(&self) -> syntax::PacketModel {
        syntax::PacketModel {
            kind: self.kind,
            flags: self.flags,
            stream_id: self.stream_id,
            pts: self.pts,
            duration: self.duration,
            payload: self.payload@,
        }
    }

    /// Copies this view into an owned packet.
    pub fn to_owned(self) -> (r: Packet)
        ensures
            r.model() == self.model(),
    {
        let mut payload: Vec<u8> = Vec::new();
        bytes::put_slice(self.payload, &mut payload);
        assert(payload@ =~= self.payload@);
        Packet {
            kind: self.kind,
            flags: self.flags,
            stream_id: self.stream_id,
            pts: self.pts,
            duration: self.duration,
            payload,
        }
    }
}

/// What reading a packet gives.
pub open spec fn view_result(
    spec: Result<(syntax::PacketModel, int), ContainerError>,
    r: Result<(PacketView<'_>, usize), ContainerError>,
) -> bool {
    match r {
        Ok((view, n)) => spec == Ok::<(syntax::PacketModel, int), ContainerError>(
            (view.model(), n as int),
        ),
        Err(e) => spec == Err::<(syntax::PacketModel, int), ContainerError>(e),
    }
}

/// Whether a packet starts with its magic.
pub(crate) fn has_magic(b: &[u8]) -> (r: bool)
    requires
        b@.len() >= 4,
    ensures
        r == (b@.take(4) == syntax::packet_magic()),
{
    let r: bool = b[0] == 65 && b[1] == 86 && b[2] == 80 && b[3] == 75;
    proof {
        if r {
            assert(b@.take(4) =~= syntax::packet_magic());
        } else {
            let (x, y) = (b@.take(4), syntax::packet_magic());
            assert(x[0] != y[0] || x[1] != y[1] || x[2] != y[2] || x[3] != y[3]);
        }
    }
    r
}

/// Zero-copy parser for one packet already resident in a contiguous byte range.
pub fn decode_packet_view_with<'a>(b: &'a [u8], max_packet: usize, kernels: KernelSet) -> (r: Result<
    (PacketView<'a>, usize),
    ContainerError,
>)
    ensures
        view_result(syntax::decoded_packet(b@, max_packet as int), r),
        r matches Ok((view, n)) ==> 32 <= n <= b@.len(),
{
    if b.len() < 28 {
        return Err(ContainerError::UnexpectedEof);
    }
    if !has_magic(b) {
        return Err(ContainerError::BadMagic);
    }
    assert(b@.subrange(0, 24) =~= b@.take(24));
    if kernels.crc32c(&b[0..24]) != get_u32_le(b, 24) {
        return Err(ContainerError::PacketHeaderChecksum);
    }
    if b[5] != 0 {
        return Err(ContainerError::BadHeader);
    }
    let len: u32 = get_u32_le(b, 20);
    let n: usize = len as usize;
    if n > max_packet || n > usize::MAX - 32 {
        return Err(ContainerError::PacketTooLarge(len));
    }
    if b.len() < 32 + n {
        return Err(ContainerError::UnexpectedEof);
    }
    let payload: &'a [u8] = &b[28..28 + n];
    if kernels.crc32c(payload) != get_u32_le(b, 28 + n) {
        return Err(ContainerError::PayloadChecksum);
    }
    match PacketKind::try_from(b[4]) {
        Err(e) => Err(e),
        Ok(kind) => Ok(
            (
                PacketView {
                    kind,
                    flags: b[5],
                    stream_id: get_u16_le(b, 6),
                    pts: get_u64_le(b, 8),
                    duration: get_u32_le(b, 16),
                    payload,
                },
                32 + n,
            ),
        ),
    }
}

// ---------------------------------------------------------------------------------------------
// Epochs

/// Validates the epoch boundaries carried by framed packets: media may not come before an
/// `EpochStart`, and a range fetched by itself must start the epoch that was asked for.
#[derive(Debug, Clone, Copy, PartialEq, Eq, Structural)]
pub struct EpochTracker {
    pub active: bool,
    pub expected: Option<u32>,
    pub current: Option<u32>,
}

impl Default for EpochTracker {
    fn default() -> (r: Self)
        ensures
            r == (EpochTracker { active: false, expected: None, current: None }),
    {
        EpochTracker { active: false, expected: None, current: None }
    }
}

impl EpochTracker {
    /// The state after a packet and the epoch that it starts, if it starts one; or an error.
    pub open spec fn observed(self, p: syntax::PacketModel) -> Result<
        (EpochTracker, Option<u32>),
        ContainerError,
    > {
        if p.kind == PacketKind::EpochStart {
            let id = bytes::le_value(p.payload) as u32;
            if p.payload.len() != 4 || (self.expected is Some && self.expected != Some(id)) {
                Err(ContainerError::BadEpoch)
            } else {
                Ok((EpochTracker { active: true, current: Some(id), ..self }, Some(id)))
            }
        } else if !self.active {
            Err(ContainerError::BadEpoch)
        } else {
            Ok((self, None))
        }
    }

    /// Starts validation of a complete file/packet sequence.
    pub fn reset_file(&mut self)
        ensures
            *final(self) == (EpochTracker { active: false, expected: None, current: None }),
    {
        self.active = false;
        self.expected = None;
        self.current = None;
    }

    /// Starts validation of one independently fetched epoch range.
    pub fn reset_range(&mut self, expected_epoch: Option<u32>)
        ensures
            *final(self) == (EpochTracker {
                active: false,
                expected: expected_epoch,
                current: None,
            }),
    {
        self.active = false;
        self.expected = expected_epoch;
        self.current = None;
    }

    /// Validates one packet. Returns the epoch ID when the packet starts a new epoch.
    pub fn observe(&mut self, packet: PacketView<'_>) -> (r: Result<Option<u32>, ContainerError>)
        ensures
            match r {
                Ok(started) => old(self).observed(packet.model()) == Ok::<
                    (EpochTracker, Option<u32>),
                    ContainerError,
                >((*final(self), started)),
                Err(e) => *final(self) == *old(self) && old(self).observed(packet.model()) == Err::<
                    (EpochTracker, Option<u32>),
                    ContainerError,
                >(e),
            },
    {
        match packet.kind {
            PacketKind::EpochStart => {
                if packet.payload.len() != 4 {
                    return Err(ContainerError::BadEpoch);
                }
                assert(packet.payload@.subrange(0, 4) =~= packet.payload@);
                let id: u32 = get_u32_le(packet.payload, 0);
                match self.expected {
                    Some(expected) => {
                        if expected != id {
                            return Err(ContainerError::BadEpoch);
                        }
                    },
                    None => {},
                }
                self.active = true;
                self.current = Some(id);
                Ok(Some(id))
            },
            _ => {
                if self.active {
                    Ok(None)
                } else {
                    Err(ContainerError::BadEpoch)
                }
            },
        }
    }

    /// Currently active epoch ID after a validated `EpochStart`.
    pub fn current(&self) -> (r: Option<u32>)
        ensures
            r == self.current,
    {
        self.current
    }
}

/// A tracker is active exactly while it has a current epoch, and then only a packet that starts
/// an epoch changes it; before, nothing but such a packet is accepted.
pub proof fn law_epoch_first(tracker: EpochTracker, p: syntax::PacketModel)
    requires
        tracker.active == tracker.current is Some,
    ensures
        tracker.observed(p) matches Ok((after, started)) ==> {
            &&& after.active
            &&& after.current is Some
            &&& started is None ==> after == tracker
            &&& started is Some ==> p.kind == PacketKind::EpochStart && after.current == started
        },
        !tracker.active && p.kind != PacketKind::EpochStart ==> tracker.observed(p) is Err,
{
}

// ---------------------------------------------------------------------------------------------
// Slices

/// Borrowed slice parser for complete file prefixes and epoch ranges.
#[derive(Debug, Clone, Copy)]
pub struct SliceParser {
    pub kernels: KernelSet,
    pub max_packet: usize,
}

impl Default for SliceParser {
    fn default() -> (r: Self)
        ensures
            r.max_packet == 134_217_728,
    {
        SliceParser { kernels: KernelSet::auto(), max_packet: DEFAULT_MAX_PACKET }
    }
}

impl SliceParser {
    /// Creates a slice parser with an explicit kernel set and packet ceiling.
    pub fn new(kernels: KernelSet, max_packet: usize) -> (r: Self)
        ensures
            r.max_packet == max_packet,
    {
        SliceParser { kernels, max_packet }
    }

    /// Parses one packet without copying its payload.
    pub fn packet<'a>(&self, bytes: &'a [u8]) -> (r: Result<(PacketView<'a>, usize), ContainerError>)
        ensures
            view_result(syntax::decoded_packet(bytes@, self.max_packet as int), r),
    {
        decode_packet_view_with(bytes, self.max_packet, self.kernels)
    }
}

// ---------------------------------------------------------------------------------------------
// Streams

/// Failure from [`StreamParser::push_each`] or [`StreamParser::commit_reserved`].
#[derive(Debug, Clone, PartialEq, Eq)]
pub enum StreamPushError<E> {
    /// Container framing or resource-limit failure.
    Container(ContainerError),
    /// Error returned by the packet consumer.
    Consumer(E),
}

/// Incremental parser for arbitrary fragment boundaries.
#[derive(Debug)]
pub struct StreamParser {
    pub buf: Vec<u8>,
    pub cursor: usize,
    pub prefix_done: bool,
    pub max_packet: usize,
    pub max_buffer: usize,
    pub kernels: KernelSet,
    pub reserved_start: Option<usize>,
    pub header: Option<FileHeader>,
    pub front: Option<Front>,
    pub stream_index: StreamIndex,
}

impl Default for StreamParser {
    fn default() -> (r: Self)
        ensures
            r.wf(),
            r.flow() == fresh_flow(134_217_728, 167_772_160),
            r.reserved() is None,
    {
        StreamParser::new(DEFAULT_MAX_PACKET, 160 * 1024 * 1024, KernelSet::auto())
    }
}

/// A parser that has seen nothing yet.
pub open spec fn fresh_flow(max_packet: int, max_buffer: int) -> flow::Flow {
    flow::Flow {
        pending: Seq::empty(),
        prefix_done: false,
        header: None,
        front: None,
        max_packet,
        max_buffer,
    }
}

impl StreamParser {
    pub open spec fn wf(&self) -> bool {
        &&& self.cursor <= self.end() <= self.buf@.len()
        &&& self.front matches Some(front) ==> wire::indexes(self.stream_index@, front.streams@)
    }

    /// Where the committed bytes end.
    pub open spec fn end(&self) -> int {
        match self.reserved_start {
            Some(start) => start as int,
            None => self.buf@.len() as int,
        }
    }

    /// The bytes that are reserved and not yet committed.
    pub open spec fn reserved(&self) -> Option<Seq<u8>> {
        match self.reserved_start {
            Some(start) => Some(self.buf@.skip(start as int)),
            None => None,
        }
    }

    pub open spec fn flow(&self) -> flow::Flow {
        flow::Flow {
            pending: self.buf@.subrange(self.cursor as int, self.end()),
            prefix_done: self.prefix_done,
            header: self.header,
            front: match self.front {
                Some(front) => Some(front.model()),
                None => None,
            },
            max_packet: self.max_packet as int,
            max_buffer: self.max_buffer as int,
        }
    }

    /// Creates a parser from explicit limits.
    pub fn with_limits(limits: Limits, kernels: KernelSet) -> (r: Self)
        ensures
            r.wf(),
            r.flow() == fresh_flow(
                limits.max_packet_bytes as int,
                if limits.max_stream_buffer_bytes < 32 {
                    32
                } else {
                    limits.max_stream_buffer_bytes as int
                },
            ),
            r.reserved() is None,
    {
        StreamParser::new(limits.max_packet_bytes, limits.max_stream_buffer_bytes, kernels)
    }

    /// Creates a bounded incremental parser; its buffer can always hold a fixed header.
    pub fn new(max_packet: usize, max_buffer: usize, kernels: KernelSet) -> (r: Self)
        ensures
            r.wf(),
            r.flow() == fresh_flow(
                max_packet as int,
                if max_buffer < 32 {
                    32
                } else {
                    max_buffer as int
                },
            ),
            r.reserved() is None,
    {
        let r: StreamParser = StreamParser {
            buf: Vec::new(),
            cursor: 0,
            prefix_done: false,
            max_packet,
            max_buffer: if max_buffer < 32 {
                32
            } else {
                max_buffer
            },
            kernels,
            reserved_start: None,
            header: None,
            front: None,
            stream_index: HashMap::new(),
        };
        assert(r.flow().pending =~= Seq::<u8>::empty());
        r
    }

    fn unread_len(&self) -> (r: usize)
        requires
            self.wf(),
            self.reserved_start is None,
        ensures
            r == self.flow().pending.len(),
    {
        self.buf.len() - self.cursor
    }

    /// Moves the unread bytes to the front of the buffer.
    fn compact(&mut self)
        requires
            old(self).wf(),
            old(self).reserved_start is None,
        ensures
            final(self).wf(),
            final(self).reserved_start is None,
            final(self).flow() == old(self).flow(),
            final(self).cursor == 0,
            final(self).buf@.len() <= old(self).buf@.len(),
    {
        if self.cursor == 0 {
            return ;
        }
        let unread: Vec<u8> = self.buf.split_off(self.cursor);
        self.buf = unread;
        self.cursor = 0;
        assert(self.flow().pending =~= old(self).flow().pending);
    }

    fn make_room(&mut self, incoming: usize) -> (r: Result<(), ContainerError>)
        requires
            old(self).wf(),
            old(self).reserved_start is None,
        ensures
            final(self).wf(),
            final(self).reserved_start is None,
            final(self).flow() == old(self).flow(),
            match r {
                Ok(()) => {
                    &&& old(self).flow().pending.len() + incoming <= old(self).max_buffer
                    &&& final(self).buf@.len() + incoming <= old(self).max_buffer + 65_536
                },
                Err(e) => old(self).flow().pending.len() + incoming > old(self).max_buffer && e
                    == ContainerError::ResourceLimit,
            },
    {
        if self.cursor > 64 * 1024 && (self.cursor >= self.buf.len() / 2 || incoming
            > self.max_buffer || self.buf.len() > self.max_buffer - incoming) {
            self.compact();
        }
        if incoming > self.max_buffer || self.unread_len() > self.max_buffer - incoming {
            return Err(ContainerError::ResourceLimit);
        }
        Ok(())
    }

    /// Reserves writable tail storage for a transport fragment. The caller must follow with
    /// [`Self::commit_reserved`] before reserving again.
    pub fn reserve_fragment(&mut self, len: usize) -> (r: Result<&mut [u8], ContainerError>)
        requires
            old(self).wf(),
        ensures
            match r {
                Ok(slot) => {
                    &&& old(self).reserved() is None
                    &&& old(self).flow().pending.len() + len <= old(self).max_buffer
                    &&& slot@.len() == len
                    &&& forall|i: int| 0 <= i < len ==> #[trigger] slot@[i] == 0
                    &&& final(slot)@.len() == len ==> {
                        &&& final(self).wf()
                        &&& final(self).flow() == old(self).flow()
                        &&& final(self).reserved() == Some(final(slot)@)
                    }
                },
                Err(e) => {
                    &&& final(self).wf()
                    &&& final(self).flow() == old(self).flow()
                    &&& final(self).reserved() == old(self).reserved()
                    &&& if old(self).reserved() is Some {
                        e == ContainerError::ParserState
                    } else {
                        e == ContainerError::ResourceLimit && (old(self).flow().pending.len() + len
                            > old(self).max_buffer || old(self).max_buffer + 65_536 > usize::MAX)
                    }
                },
            },
    {
        if self.reserved_start.is_some() {
            return Err(ContainerError::ParserState);
        }
        match self.make_room(len) {
            Ok(()) => {},
            Err(e) => {
                return Err(e);
            },
        }
        let start: usize = self.buf.len();
        if len > usize::MAX - start {
            return Err(ContainerError::ResourceLimit);
        }
        let ghost kept = self.buf@;
        self.buf.resize(start + len, 0);
        self.reserved_start = Some(start);
        assert(self.buf@.subrange(0, start as int) =~= kept);
        proof {
            let c = self.cursor as int;
            assert forall|t: Seq<u8>| (#[trigger] (kept + t)).subrange(c, start as int)
                == kept.subrange(c, start as int) && (kept + t).skip(start as int) == t by {
                assert((kept + t).subrange(c, start as int) =~= kept.subrange(c, start as int));
                assert((kept + t).skip(start as int) =~= t);
            }
        }
        let (head, tail) = self.buf.as_mut_slice().split_at_mut(start);
        Ok(tail)
    }
}

/// The consumer was handed this packet and answered so.
pub open spec fn handed<E, F: FnMut(PacketView<'_>) -> Result<(), E>>(
    consume: F,
    p: syntax::PacketModel,
    answer: Result<(), E>,
) -> bool {
    exists|view: PacketView<'_>| #[trigger]
        view.model() == p && call_ensures(consume, (view,), answer)
}

/// The consumer was handed this packet and took it.
pub open spec fn accepted<E, F: FnMut(PacketView<'_>) -> Result<(), E>>(
    consume: F,
    p: syntax::PacketModel,
) -> bool {
    exists|answer: Result<(), E>| answer is Ok && #[trigger] handed::<E, F>(consume, p, answer)
}

/// The consumer was handed each of the first `k` packets and took it.
pub open spec fn took<E, F: FnMut(PacketView<'_>) -> Result<(), E>>(
    consume: F,
    packets: Seq<(syntax::PacketModel, Option<StreamDesc>)>,
    k: int,
) -> bool {
    forall|i: int|
        0 <= i < k ==> accepted::<E, F>(consume, (#[trigger] packets[i]).0)
}

/// What taking packets with a consumer gives: it ends after the last complete packet, at a framing
/// error, or at the packet that the consumer refuses, which stays pending.
pub open spec fn delivered<E, F: FnMut(PacketView<'_>) -> Result<(), E>>(
    open: flow::Flow,
    consume: F,
    after: flow::Flow,
    r: Result<(), StreamPushError<E>>,
) -> bool {
    let d = open.drained();
    match r {
        Ok(()) => d.error is None && after == d.flow && took::<E, F>(
            consume,
            d.packets,
            d.packets.len() as int,
        ),
        Err(StreamPushError::Container(e)) => d.error == Some(e) && after == d.flow && took::<E, F>(
            consume,
            d.packets,
            d.packets.len() as int,
        ),
        Err(StreamPushError::Consumer(e)) => exists|k: int|
            0 <= k < d.packets.len() && after == #[trigger] open.after(k) && took::<E, F>(
                consume,
                d.packets,
                k,
            ) && handed::<E, F>(consume, d.packets[k].0, Err(e)),
    }
}

/// What a step with a consumer gives: first the header and front index are taken.
pub open spec fn stepped<E, F: FnMut(PacketView<'_>) -> Result<(), E>>(
    start: flow::Flow,
    consume: F,
    after: flow::Flow,
    r: Result<(), StreamPushError<E>>,
) -> bool {
    match start.opened().1 {
        Some(e) => r == Err::<(), StreamPushError<E>>(StreamPushError::Container(e)) && after
            == start.opened().0,
        None => delivered(start.opened().0, consume, after, r),
    }
}

/// The packets that owned packets are.
pub open spec fn models(packets: Seq<Packet>) -> Seq<syntax::PacketModel> {
    Seq::new(packets.len(), |i: int| packets[i].model())
}

/// The packets of a step without their streams.
pub open spec fn contents(packets: Seq<(syntax::PacketModel, Option<StreamDesc>)>) -> Seq<
    syntax::PacketModel,
> {
    Seq::new(packets.len(), |i: int| packets[i].0)
}

/// What feeding a fragment gives as owned packets.
pub open spec fn fed_result(
    d: flow::Drained,
    after: flow::Flow,
    r: Result<Vec<Packet>, ContainerError>,
) -> bool {
    &&& after == d.flow
    &&& match r {
        Ok(packets) => d.error is None && models(packets@) == contents(d.packets),
        Err(e) => d.error == Some(e),
    }
}

impl StreamParser {
    /// Ends a reservation: the first `written` bytes of it become input.
    fn take_commit(&mut self, written: usize) -> (r: Result<(), ContainerError>)
        requires
            old(self).wf(),
        ensures
            final(self).wf(),
            final(self).reserved_start is None,
            match r {
                Ok(()) => old(self).reserved() matches Some(slot) && written <= slot.len()
                    && final(self).flow() == old(self).flow().with_pending(
                    old(self).flow().pending + slot.take(written as int),
                ),
                Err(e) => e == ContainerError::ParserState && final(self).flow() == old(self).flow() && (old(self).reserved() matches Some(slot) ==> written > slot.len()),
            },
    {
        let start: usize = match self.reserved_start {
            Some(start) => start,
            None => {
                return Err(ContainerError::ParserState);
            },
        };
        let ghost before = self.buf@;
        let c = Ghost(self.cursor as int);
        self.reserved_start = None;
        if written > self.buf.len() - start {
            self.buf.truncate(start);
            assert(self.buf@.subrange(c@, start as int) =~= before.subrange(c@, start as int));
            return Err(ContainerError::ParserState);
        }
        self.buf.truncate(start + written);
        assert(self.buf@.subrange(c@, start + written) =~= before.subrange(c@, start as int)
            + before.skip(start as int).take(written as int));
        Ok(())
    }

    /// Takes the header and front index once they are complete.
    fn open_prefix(&mut self) -> (r: Result<(), ContainerError>)
        requires
            old(self).wf(),
            old(self).reserved_start is None,
        ensures
            final(self).wf(),
            final(self).reserved_start is None,
            old(self).flow().opened() == (
                final(self).flow(),
                match r {
                    Ok(()) => None,
                    Err(e) => Some(e),
                },
            ),
    {
        proof {
            reveal(flow::Flow::opened);
        }
        if self.prefix_done || self.unread_len() < 32 {
            return Ok(());
        }
        let start: usize = self.cursor;
        let ghost pending = self.flow().pending;
        assert(self.buf.len() == self.buf@.len());
        assert(self.buf@.subrange(start as int, start + 32) =~= pending.take(32));
        let h: FileHeader = match decode_header(&self.buf.as_slice()[start..start + 32]) {
            Ok(h) => h,
            Err(e) => {
                return Err(e);
            },
        };
        self.header = Some(h);
        let len: usize = h.front_len as usize;
        if len > usize::MAX - 32 {
            return Err(ContainerError::BadHeader);
        }
        let n: usize = 32 + len;
        if n > self.max_buffer {
            return Err(ContainerError::ResourceLimit);
        }
        if self.unread_len() < n {
            return Ok(());
        }
        assert(self.buf.len() == self.buf@.len());
        assert(self.buf@.subrange(start + 32, start + n) =~= pending.subrange(32, n as int));
        let front: Front = match decode_front(
            &self.buf.as_slice()[start + 32..start + n],
            h.stream_count,
        ) {
            Ok(front) => front,
            Err(e) => {
                return Err(e);
            },
        };
        match build_stream_index(front.streams.as_slice()) {
            Ok(index) => {
                self.stream_index = index;
            },
            Err(e) => {
                return Err(e);
            },
        }
        self.front = Some(front);
        self.cursor = start + n;
        self.prefix_done = true;
        assert(self.flow().pending =~= pending.skip(n as int));
        Ok(())
    }

    /// The next complete packet, its stream and its length.
    pub fn peek(&self) -> (r: Result<
        Option<(PacketView<'_>, Option<&StreamDesc>, usize)>,
        ContainerError,
    >)
        requires
            self.wf(),
            self.reserved_start is None,
        ensures
            self.flow().next() == (match r {
                Err(e) => Err(e),
                Ok(None) => Ok(None),
                Ok(Some((view, stream, n))) => Ok(
                    Some(
                        (
                            view.model(),
                            match stream {
                                Some(stream) => Some(*stream),
                                None => None,
                            },
                            n as int,
                        ),
                    ),
                ),
            }),
            r matches Ok(Some((view, stream, n))) ==> 32 <= n <= self.flow().pending.len(),
    {
        proof {
            reveal(flow::Flow::next);
        }
        if !self.prefix_done || self.unread_len() == 0 {
            return Ok(None);
        }
        match decode_packet_view_with(
            &self.buf.as_slice()[self.cursor..self.buf.len()],
            self.max_packet,
            self.kernels,
        ) {
            Err(ContainerError::UnexpectedEof) => Ok(None),
            Err(e) => Err(e),
            Ok((view, n)) => match &self.front {
                None => Ok(Some((view, None, n))),
                Some(front) => match packet_stream_indexed(
                    front.streams.as_slice(),
                    &self.stream_index,
                    view,
                ) {
                    Err(e) => Err(e),
                    Ok(stream) => Ok(Some((view, stream, n))),
                },
            },
        }
    }

    /// Takes the packet of `n` bytes that comes next.
    pub fn skip(&mut self, n: usize)
        requires
            old(self).wf(),
            old(self).reserved_start is None,
            n <= old(self).flow().pending.len(),
        ensures
            final(self).wf(),
            final(self).reserved_start is None,
            final(self).flow() == old(self).flow().with_pending(
                old(self).flow().pending.skip(n as int),
            ),
    {
        assert(self.buf.len() == self.buf@.len());
        self.cursor = self.cursor + n;
        assert(self.flow().pending =~= old(self).flow().pending.skip(n as int));
    }

    /// Gives storage back once most of it has been read.
    pub fn settle(&mut self)
        requires
            old(self).wf(),
            old(self).reserved_start is None,
        ensures
            final(self).wf(),
            final(self).reserved_start is None,
            final(self).flow() == old(self).flow(),
    {
        if self.cursor > 1024 * 1024 && self.cursor >= self.buf.len() / 2 {
            self.compact();
        }
    }

    /// Commits the first `written` bytes of the latest reservation and makes what they complete
    /// ready: the header and front index are taken.
    pub fn begin_commit(&mut self, written: usize) -> (r: Result<(), ContainerError>)
        requires
            old(self).wf(),
        ensures
            final(self).wf(),
            final(self).reserved_start is None,
            match old(self).reserved() {
                None => r == Err::<(), ContainerError>(ContainerError::ParserState) && final(self).flow() == old(self).flow(),
                Some(slot) => if written > slot.len() {
                    r == Err::<(), ContainerError>(ContainerError::ParserState) && final(self).flow() == old(self).flow()
                } else {
                    old(self).flow().with_pending(
                        old(self).flow().pending + slot.take(written as int),
                    ).opened() == (
                        final(self).flow(),
                        match r {
                            Ok(()) => None,
                            Err(e) => Some(e),
                        },
                    )
                },
            },
    {
        match self.take_commit(written) {
            Ok(()) => {},
            Err(e) => {
                return Err(e);
            },
        }
        self.open_prefix()
    }

    /// Commits at most `written` bytes from the most recent reservation and streams packet views
    /// synchronously to `consume`. Packet payloads are borrowed directly from parser storage and
    /// are valid only for the duration of the callback.
    pub fn commit_reserved<E, F: FnMut(PacketView<'_>) -> Result<(), E>>(
        &mut self,
        written: usize,
        consume: F,
    ) -> (r: Result<(), StreamPushError<E>>)
        requires
            old(self).wf(),
            forall|view: PacketView<'_>| call_requires(consume, (view,)),
        ensures
            final(self).wf(),
            final(self).reserved_start is None,
            match old(self).reserved() {
                None => r == Err::<(), StreamPushError<E>>(
                    StreamPushError::Container(ContainerError::ParserState),
                ) && final(self).flow() == old(self).flow(),
                Some(slot) => if written > slot.len() {
                    r == Err::<(), StreamPushError<E>>(
                        StreamPushError::Container(ContainerError::ParserState),
                    ) && final(self).flow() == old(self).flow()
                } else {
                    stepped(
                        old(self).flow().with_pending(
                            old(self).flow().pending + slot.take(written as int),
                        ),
                        consume,
                        final(self).flow(),
                        r,
                    )
                },
            },
    {
        match self.begin_commit(written) {
            Ok(()) => self.deliver(consume),
            Err(e) => Err(StreamPushError::Container(e)),
        }
    }

    /// Takes complete packets while the consumer takes them.
    fn deliver<E, F: FnMut(PacketView<'_>) -> Result<(), E>>(&mut self, consume: F) -> (r: Result<
        (),
        StreamPushError<E>,
    >)
        requires
            old(self).wf(),
            old(self).reserved_start is None,
            forall|view: PacketView<'_>| call_requires(consume, (view,)),
        ensures
            final(self).wf(),
            final(self).reserved_start is None,
            delivered(old(self).flow(), consume, final(self).flow(), r),
    {
        let ghost handler = consume;
        let mut consumer: F = consume;
        let ghost open = self.flow();
        let ghost d = open.drained();
        let ghost mut k: int = 0;
        assert(d.packets.skip(0) =~= d.packets);
        loop
            invariant_except_break
                self.wf(),
                self.reserved_start is None,
                forall|view: PacketView<'_>| call_requires(consumer, (view,)),
                consumer == handler,
                handler == consume,
                open == old(self).flow(),
                d == open.drained(),
                0 <= k <= d.packets.len(),
                self.flow() == open.after(k),
                self.flow().drained().packets == d.packets.skip(k),
                self.flow().drained().flow == d.flow,
                self.flow().drained().error == d.error,
                took::<E, F>(handler, d.packets, k),
            ensures
                self.wf(),
                self.reserved_start is None,
                self.flow() == d.flow,
                d.error is None,
                handler == consume,
                took::<E, F>(handler, d.packets, d.packets.len() as int),
            decreases self.flow().pending.len(),
        {
            let ghost mut given: Result<(), E> = arbitrary();
            proof {
                flow::lemma_next_size(self.flow());
                if k < d.packets.len() {
                    flow::lemma_after(open, k);
                } else {
                    flow::lemma_after_all(open);
                    assert(d.packets.skip(k) =~= Seq::empty());
                }
            }
            let n: usize = match self.peek() {
                Err(e) => {
                    assert(k == d.packets.len());
                    return Err(StreamPushError::Container(e));
                },
                Ok(None) => {
                    assert(k == d.packets.len());
                    break;
                },
                Ok(Some((view, stream, n))) => {
                    assert(k < d.packets.len());
                    let answer: Result<(), E> = consumer(view);
                    proof {
                        given = answer;
                    }
                    assert(handed::<E, F>(handler, d.packets[k].0, given));
                    match answer {
                        Ok(()) => {},
                        Err(e) => {
                            return Err(StreamPushError::Consumer(e));
                        },
                    }
                    n
                },
            };
            self.skip(n);
            proof {
                assert forall|i: int| 0 <= i < k + 1 implies accepted::<E, F>(
                    handler,
                    (#[trigger] d.packets[i]).0,
                ) by {
                    if i == k {
                        assert(handed::<E, F>(handler, d.packets[k].0, given));
                    }
                }
                assert(self.flow() == open.after(k + 1));
                if k + 1 < d.packets.len() {
                    flow::lemma_after(open, k + 1);
                } else {
                    flow::lemma_after_all(open);
                    assert(d.packets.skip(k + 1) =~= Seq::empty());
                }
                k = k + 1;
            }
        }
        self.settle();
        Ok(())
    }
}

/// Fills a slot.
pub fn fill(slot: &mut [u8], bytes: &[u8])
    requires
        old(slot)@.len() == bytes@.len(),
    ensures
        final(slot)@ == bytes@,
{
    let mut i: usize = 0;
    while i < bytes.len()
        invariant
            slot@.len() == bytes@.len(),
            i <= bytes@.len(),
            forall|j: int| 0 <= j < i ==> #[trigger] slot@[j] == bytes@[j],
        decreases bytes@.len() - i,
    {
        slot[i] = bytes[i];
        i = i + 1;
    }
    assert(slot@ =~= bytes@);
}

impl StreamParser {
    /// Copies a fragment into a reservation of its own.
    pub fn reserve_copy(&mut self, fragment: &[u8]) -> (r: Result<(), ContainerError>)
        requires
            old(self).wf(),
        ensures
            final(self).wf(),
            final(self).flow() == old(self).flow(),
            match r {
                Ok(()) => {
                    &&& old(self).reserved() is None
                    &&& old(self).flow().pending.len() + fragment@.len() <= old(self).max_buffer
                    &&& final(self).reserved() == Some(fragment@)
                },
                Err(e) => {
                    &&& final(self).reserved() == old(self).reserved()
                    &&& if old(self).reserved() is Some {
                        e == ContainerError::ParserState
                    } else {
                        e == ContainerError::ResourceLimit && (old(self).flow().pending.len()
                            + fragment@.len() > old(self).max_buffer || old(self).max_buffer + 65_536
                            > usize::MAX)
                    }
                },
            },
    {
        match self.reserve_fragment(fragment.len()) {
            Ok(slot) => {
                fill(slot, fragment);
                Ok(())
            },
            Err(e) => Err(e),
        }
    }

    /// Copies an arbitrary fragment into parser storage and synchronously exposes validated packet
    /// views. Integrations that can write into caller-provided storage should prefer
    /// [`Self::reserve_fragment`] plus [`Self::commit_reserved`] to avoid this copy.
    pub fn push_each<E, F: FnMut(PacketView<'_>) -> Result<(), E>>(
        &mut self,
        fragment: &[u8],
        consume: F,
    ) -> (r: Result<(), StreamPushError<E>>)
        requires
            old(self).wf(),
            forall|view: PacketView<'_>| call_requires(consume, (view,)),
        ensures
            final(self).wf(),
            if old(self).reserved() is Some {
                &&& r == Err::<(), StreamPushError<E>>(
                    StreamPushError::Container(ContainerError::ParserState),
                )
                &&& final(self).flow() == old(self).flow()
                &&& final(self).reserved() == old(self).reserved()
            } else {
                &&& final(self).reserved() is None
                &&& if old(self).flow().pending.len() + fragment@.len() > old(self).max_buffer {
                    &&& r == Err::<(), StreamPushError<E>>(
                        StreamPushError::Container(ContainerError::ResourceLimit),
                    )
                    &&& final(self).flow() == old(self).flow()
                } else {
                    ||| stepped(
                        old(self).flow().with_pending(old(self).flow().pending + fragment@),
                        consume,
                        final(self).flow(),
                        r,
                    )
                    ||| old(self).max_buffer + 65_536 > usize::MAX && r == Err::<
                        (),
                        StreamPushError<E>,
                    >(StreamPushError::Container(ContainerError::ResourceLimit)) && final(self).flow() == old(self).flow()
                }
            },
    {
        match self.reserve_copy(fragment) {
            Ok(()) => {},
            Err(e) => {
                return Err(StreamPushError::Container(e));
            },
        }
        assert(fragment@.take(fragment@.len() as int) =~= fragment@);
        self.commit_reserved(fragment.len(), consume)
    }

    /// Takes complete packets as owned packets.
    fn collect(&mut self) -> (r: Result<Vec<Packet>, ContainerError>)
        requires
            old(self).wf(),
            old(self).reserved_start is None,
        ensures
            final(self).wf(),
            final(self).reserved_start is None,
            ({
                let d = old(self).flow().drained();
                &&& final(self).flow() == d.flow
                &&& match r {
                    Ok(packets) => d.error is None && models(packets@) == contents(d.packets),
                    Err(e) => d.error == Some(e),
                }
            }),
    {
        let ghost open = self.flow();
        let ghost d = open.drained();
        let ghost mut k: int = 0;
        let mut packets: Vec<Packet> = Vec::new();
        assert(d.packets.skip(0) =~= d.packets);
        loop
            invariant_except_break
                self.wf(),
                self.reserved_start is None,
                open == old(self).flow(),
                d == open.drained(),
                0 <= k <= d.packets.len(),
                self.flow() == open.after(k),
                self.flow().drained().packets == d.packets.skip(k),
                self.flow().drained().flow == d.flow,
                self.flow().drained().error == d.error,
                models(packets@) == contents(d.packets).take(k),
            ensures
                self.wf(),
                self.reserved_start is None,
                self.flow() == d.flow,
                d.error is None,
                models(packets@) == contents(d.packets),
            decreases self.flow().pending.len(),
        {
            proof {
                flow::lemma_next_size(self.flow());
                if k < d.packets.len() {
                    flow::lemma_after(open, k);
                } else {
                    flow::lemma_after_all(open);
                    assert(d.packets.skip(k) =~= Seq::empty());
                }
            }
            let n: usize = match self.peek() {
                Err(e) => {
                    assert(k == d.packets.len());
                    return Err(e);
                },
                Ok(None) => {
                    assert(k == d.packets.len());
                    assert(contents(d.packets).take(k) =~= contents(d.packets));
                    break;
                },
                Ok(Some((view, stream, n))) => {
                    assert(k < d.packets.len());
                    let ghost before = packets@;
                    packets.push(view.to_owned());
                    proof {
                        assert(models(packets@) =~= models(before).push(view.model()));
                        assert(contents(d.packets).take(k + 1) =~= contents(d.packets).take(
                            k,
                        ).push(view.model()));
                    }
                    n
                },
            };
            self.skip(n);
            proof {
                assert(self.flow() == open.after(k + 1));
                if k + 1 < d.packets.len() {
                    flow::lemma_after(open, k + 1);
                } else {
                    flow::lemma_after_all(open);
                    assert(d.packets.skip(k + 1) =~= Seq::empty());
                }
                k = k + 1;
            }
        }
        self.settle();
        Ok(packets)
    }

    /// Appends an arbitrary fragment and returns owned packets for convenience.
    pub fn push(&mut self, fragment: &[u8]) -> (r: Result<Vec<Packet>, ContainerError>)
        requires
            old(self).wf(),
        ensures
            final(self).wf(),
            if old(self).reserved() is Some {
                &&& r == Err::<Vec<Packet>, ContainerError>(ContainerError::ParserState)
                &&& final(self).flow() == old(self).flow()
                &&& final(self).reserved() == old(self).reserved()
            } else {
                &&& final(self).reserved() is None
                &&& if old(self).flow().pending.len() + fragment@.len() > old(self).max_buffer {
                    &&& r == Err::<Vec<Packet>, ContainerError>(ContainerError::ResourceLimit)
                    &&& final(self).flow() == old(self).flow()
                } else {
                    ||| fed_result(old(self).flow().fed(fragment@), final(self).flow(), r)
                    ||| old(self).max_buffer + 65_536 > usize::MAX && r == Err::<
                        Vec<Packet>,
                        ContainerError,
                    >(ContainerError::ResourceLimit) && final(self).flow() == old(self).flow()
                }
            },
    {
        match self.reserve_copy(fragment) {
            Ok(()) => {},
            Err(e) => {
                return Err(e);
            },
        }
        assert(fragment@.take(fragment@.len() as int) =~= fragment@);
        match self.begin_commit(fragment.len()) {
            Ok(()) => self.collect(),
            Err(e) => Err(e),
        }
    }

    /// Returns the validated fixed header once at least the complete fixed header has arrived.
    pub fn file_header(&self) -> (r: Option<&FileHeader>)
        ensures
            match r {
                Some(h) => self.header == Some(*h),
                None => self.header is None,
            },
    {
        self.header.as_ref()
    }

    /// Returns the validated front index once the complete file prefix has arrived.
    pub fn front_index(&self) -> (r: Option<&Front>)
        ensures
            match r {
                Some(front) => self.front == Some(*front),
                None => self.front is None,
            },
    {
        self.front.as_ref()
    }

    /// Resets parser state for a new complete file while preserving limits and kernels.
    pub fn reset_file(&mut self)
        ensures
            final(self).wf(),
            final(self).flow() == fresh_flow(
                old(self).max_packet as int,
                old(self).max_buffer as int,
            ),
            final(self).reserved() is None,
    {
        self.buf.clear();
        self.cursor = 0;
        self.prefix_done = false;
        self.reserved_start = None;
        self.header = None;
        self.front = None;
        self.stream_index.clear();
        assert(self.flow().pending =~= Seq::<u8>::empty());
    }

    /// Resets the parser to accept a standalone epoch range rather than a full file prefix; a front
    /// index that was read before stays in use.
    pub fn reset_epoch_range(&mut self)
        requires
            old(self).wf(),
        ensures
            final(self).wf(),
            final(self).flow() == (flow::Flow {
                pending: Seq::empty(),
                prefix_done: true,
                ..old(self).flow()
            }),
            final(self).reserved() is None,
    {
        self.buf.clear();
        self.cursor = 0;
        self.prefix_done = true;
        self.reserved_start = None;
        assert(self.flow().pending =~= Seq::<u8>::empty());
    }

    /// Validates that the current input transaction ended on a complete packet boundary.
    pub fn finish_input(&self) -> (r: Result<(), ContainerError>)
        requires
            self.wf(),
        ensures
            r == (if self.reserved() is Some {
                Err::<(), ContainerError>(ContainerError::ParserState)
            } else if self.flow().pending.len() == 0 {
                Ok(())
            } else {
                Err(ContainerError::TrailingData)
            }),
    {
        if self.reserved_start.is_some() {
            return Err(ContainerError::ParserState);
        }
        if self.unread_len() == 0 {
            Ok(())
        } else {
            Err(ContainerError::TrailingData)
        }
    }

    /// Finishes the stream, rejecting any incomplete trailing bytes.
    pub fn finish(self) -> (r: Result<(), ContainerError>)
        requires
            self.wf(),
        ensures
            r == (if self.reserved() is Some {
                Err::<(), ContainerError>(ContainerError::ParserState)
            } else if self.flow().pending.len() == 0 {
                Ok(())
            } else {
                Err(ContainerError::TrailingData)
            }),
    {
        self.finish_input()
    }

    /// Number of unread bytes currently buffered, reserved bytes included.
    pub fn buffered_bytes(&self) -> (r: usize)
        requires
            self.wf(),
        ensures
            r == self.flow().pending.len() + match self.reserved() {
                Some(slot) => slot.len(),
                None => 0,
            },
    {
        self.buf.len() - self.cursor
    }
}

} // verus!
