//! Container reader that takes any front index that is framed and sealed in order, whatever it
//! says.
use crate::bytes::{get_u16_le, get_u32_le, get_u64_le, put_slice};
use crate::container::v1::syntax;
use crate::container::v1::wire::has_front_magic;
use crate::kernels::scalar;
use vstd::prelude::*;

pub use crate::container::v1::{
    build_file, crc32c, decode_header, decode_packet, encode_front, encode_header, encode_packet,
    ChromaLocation, ColorMatrix, ColorPrimaries, ColorTransfer, ContainerError, EpochIndex,
    FileHeader, Front, Packet, PacketKind, StreamDesc, StreamKind, VideoMeta, DEFAULT_MAX_PACKET,
    FILE_MAGIC, FIXED_HEADER_LEN, FRONT_MAGIC, PACKET_HEADER_LEN, PACKET_MAGIC, PACKET_TRAILER_LEN,
    TIMEBASE,
};

verus! {

/// The front index that bytes hold, or why they are refused. What the entries say is not looked
/// at.
pub open spec fn decoded_front(b: Seq<u8>, expected_streams: int) -> Result<
    syntax::FrontModel,
    ContainerError,
> {
    let streams = syntax::number_at(b, 6, 2);
    let epochs = syntax::number_at(b, 8, 4);
    let need = 16 + 24 * streams + 32 * epochs;
    if b.len() < 16 {
        Err(ContainerError::UnexpectedEof)
    } else if b.take(4) != syntax::front_magic() || syntax::number_at(b, 4, 2) != 1 || streams
        != expected_streams {
        Err(ContainerError::BadFront)
    } else if need > usize::MAX {
        Err(ContainerError::BadFront)
    } else if b.len() < need {
        Err(ContainerError::UnexpectedEof)
    } else if b.len() > need {
        Err(ContainerError::TrailingData)
    } else if scalar::crc_of(b.take(need - 4)) != syntax::number_at(b, need - 4, 4) {
        Err(ContainerError::FrontChecksum)
    } else if !syntax::kinds_known(b, 12, streams) {
        Err(ContainerError::BadFront)
    } else {
        Ok(
            syntax::FrontModel {
                streams: syntax::streams_at(b, 12, streams),
                epochs: syntax::epochs_at(b, 12 + 24 * streams, epochs),
            },
        )
    }
}

/// The header and front index that a file starts with, and where its packets start; or why the
/// file is refused.
pub open spec fn decoded_prefix(b: Seq<u8>) -> Result<
    (FileHeader, syntax::FrontModel, int),
    ContainerError,
> {
    match syntax::decoded_header(b) {
        Err(e) => Err(e),
        Ok(h) => {
            let end = 32 + h.front_len as int;
            if end > usize::MAX {
                Err(ContainerError::BadHeader)
            } else if b.len() < end {
                Err(ContainerError::UnexpectedEof)
            } else {
                match decoded_front(b.subrange(32, end), h.stream_count as int) {
                    Err(e) => Err(e),
                    Ok(front) => Ok((h, front, end)),
                }
            }
        },
    }
}

/// A front index that production takes reads the same here.
pub proof fn law_front_agrees(b: Seq<u8>, expected_streams: int)
    ensures
        syntax::decoded_front(b, expected_streams) matches Ok(front) ==> decoded_front(
            b,
            expected_streams,
        ) == Ok::<syntax::FrontModel, ContainerError>(front),
{
}

/// Reads `n` stream descriptors.
fn read_descriptors(b: &[u8], n: usize) -> (r: Result<Vec<StreamDesc>, ContainerError>)
    requires
        12 + 24 * n <= b@.len(),
    ensures
        match r {
            Ok(streams) => syntax::kinds_known(b@, 12, n as int) && streams@ == syntax::streams_at(
                b@,
                12,
                n as int,
            ),
            Err(e) => !syntax::kinds_known(b@, 12, n as int) && e == ContainerError::BadFront,
        },
{
    assert(b.len() == b@.len());
    let ghost list = syntax::streams_at(b@, 12, n as int);
    let mut streams: Vec<StreamDesc> = Vec::new();
    let mut i: usize = 0;
    while i < n
        invariant
            12 + 24 * n <= b@.len() <= usize::MAX,
            i <= n,
            list == syntax::streams_at(b@, 12, n as int),
            streams@ == list.take(i as int),
            forall|j: int| 0 <= j < i ==> 1 <= #[trigger] b@[12 + 24 * j + 2] <= 2,
        decreases n - i,
    {
        let p: usize = 12 + 24 * i;
        let kind: StreamKind = match StreamKind::try_from(b[p + 2]) {
            Ok(kind) => kind,
            Err(e) => {
                assert(!(1 <= b@[12 + 24 * i + 2] <= 2));
                return Err(e);
            },
        };
        streams.push(
            StreamDesc {
                id: get_u16_le(b, p),
                kind,
                codec: b[p + 3],
                timescale: get_u32_le(b, p + 4),
                param0: get_u32_le(b, p + 8),
                param1: get_u32_le(b, p + 12),
                flags: get_u32_le(b, p + 16),
                meta0: get_u32_le(b, p + 20),
            },
        );
        assert(streams@ =~= list.take(i + 1));
        i = i + 1;
    }
    assert(streams@ =~= list);
    Ok(streams)
}

/// Parses a front index for the expected stream count.
pub fn decode_front(b: &[u8], expected_streams: u16) -> (r: Result<Front, ContainerError>)
    ensures
        crate::container::v1::wire::front_result(decoded_front(b@, expected_streams as int), r),
{
    if b.len() < 16 {
        return Err(ContainerError::UnexpectedEof);
    }
    if !has_front_magic(b) || get_u16_le(b, 4) != 1 {
        return Err(ContainerError::BadFront);
    }
    let sc: u16 = get_u16_le(b, 6);
    let ec: u32 = get_u32_le(b, 8);
    if sc != expected_streams {
        return Err(ContainerError::BadFront);
    }
    let total: u64 = 16 + 24 * sc as u64 + 32 * ec as u64;
    if total > usize::MAX as u64 {
        return Err(ContainerError::BadFront);
    }
    let need: usize = total as usize;
    if b.len() < need {
        return Err(ContainerError::UnexpectedEof);
    }
    if b.len() > need {
        return Err(ContainerError::TrailingData);
    }
    assert(b@.subrange(0, need - 4) =~= b@.take(need - 4));
    if crc32c(&b[0..need - 4]) != get_u32_le(b, need - 4) {
        return Err(ContainerError::FrontChecksum);
    }
    let streams: Vec<StreamDesc> = match read_descriptors(b, sc as usize) {
        Ok(streams) => streams,
        Err(e) => {
            return Err(e);
        },
    };
    let start: usize = 12 + 24 * sc as usize;
    let ghost index = syntax::epochs_at(b@, start as int, ec as int);
    let mut epochs: Vec<EpochIndex> = Vec::new();
    let mut k: usize = 0;
    while k < ec as usize
        invariant
            start + 32 * ec <= b@.len() <= usize::MAX,
            k <= ec,
            index == syntax::epochs_at(b@, start as int, ec as int),
            epochs@ == index.take(k as int),
        decreases ec - k,
    {
        let p: usize = start + 32 * k;
        epochs.push(
            EpochIndex {
                id: get_u32_le(b, p),
                pts: get_u64_le(b, p + 8),
                offset: get_u64_le(b, p + 16),
                len: get_u64_le(b, p + 24),
                duration: get_u32_le(b, p + 4),
            },
        );
        assert(epochs@ =~= index.take(k + 1));
        k = k + 1;
    }
    assert(epochs@ =~= index);
    Ok(Front { streams, epochs })
}

/// Parses the fixed header plus complete front index from a file prefix.
pub fn parse_file_prefix(b: &[u8]) -> (r: Result<(FileHeader, Front, usize), ContainerError>)
    ensures
        match r {
            Ok((h, front, n)) => decoded_prefix(b@) == Ok::<
                (FileHeader, syntax::FrontModel, int),
                ContainerError,
            >((h, front.model(), n as int)),
            Err(e) => decoded_prefix(b@) == Err::<
                (FileHeader, syntax::FrontModel, int),
                ContainerError,
            >(e),
        },
{
    let h: FileHeader = match decode_header(b) {
        Ok(h) => h,
        Err(e) => {
            return Err(e);
        },
    };
    let len: usize = h.front_len as usize;
    if len > usize::MAX - 32 {
        return Err(ContainerError::BadHeader);
    }
    if b.len() < 32 + len {
        return Err(ContainerError::UnexpectedEof);
    }
    match decode_front(&b[32..32 + len], h.stream_count) {
        Ok(front) => Ok((h, front, 32 + len)),
        Err(e) => Err(e),
    }
}

// ---------------------------------------------------------------------------------------------
// Incremental parsing

/// Incremental packet parser for arbitrarily fragmented byte streams.
pub struct IncrementalParser {
    pub buf: Vec<u8>,
    pub prefix_done: bool,
    pub max_packet: usize,
}

/// The state of the parser.
#[verifier::ext_equal]
pub struct Parsing {
    pub buf: Seq<u8>,
    pub prefix_done: bool,
    pub max_packet: usize,
}

/// The packets that bytes start with, the bytes behind them, and what stopped the parser, if it
/// was not the end of what there is.
pub open spec fn drained(buf: Seq<u8>, max: int) -> (
    Seq<syntax::PacketModel>,
    Seq<u8>,
    Option<ContainerError>,
)
    decreases buf.len(),
{
    if buf.len() == 0 {
        (Seq::empty(), buf, None)
    } else {
        match syntax::decoded_packet(buf, max) {
            Err(e) => (
                Seq::empty(),
                buf,
                if e == ContainerError::UnexpectedEof {
                    None
                } else {
                    Some(e)
                },
            ),
            Ok((p, n)) => if n <= 0 || n > buf.len() {
                (Seq::empty(), buf, None)
            } else {
                let (packets, rest, stop) = drained(buf.skip(n), max);
                (seq![p] + packets, rest, stop)
            },
        }
    }
}

impl Parsing {
    /// What taking the packets of the buffer gives.
    pub open spec fn packets(self) -> (Result<Seq<syntax::PacketModel>, ContainerError>, Parsing) {
        let (packets, rest, stop) = drained(self.buf, self.max_packet as int);
        let after = Parsing { buf: rest, ..self };
        match stop {
            None => (Ok(packets), after),
            Some(e) => (Err(e), after),
        }
    }

    /// What looking at the buffer gives: packets, once header and front index are there.
    pub open spec fn settled(self) -> (Result<Seq<syntax::PacketModel>, ContainerError>, Parsing) {
        if self.prefix_done {
            self.packets()
        } else if self.buf.len() < 32 {
            (Ok(Seq::empty()), self)
        } else {
            match syntax::decoded_header(self.buf) {
                Err(e) => (Err(e), self),
                Ok(h) => {
                    let n = 32 + h.front_len as int;
                    if self.buf.len() < n {
                        (Ok(Seq::empty()), self)
                    } else {
                        match decoded_front(self.buf.subrange(32, n), h.stream_count as int) {
                            Err(e) => (Err(e), self),
                            Ok(_) => Parsing {
                                buf: self.buf.skip(n),
                                prefix_done: true,
                                ..self
                            }.packets(),
                        }
                    }
                },
            }
        }
    }

    /// What a fragment gives.
    pub open spec fn pushed(self, c: Seq<u8>) -> (
        Result<Seq<syntax::PacketModel>, ContainerError>,
        Parsing,
    ) {
        Parsing { buf: self.buf + c, ..self }.settled()
    }
}

proof fn lemma_drained_more(buf: Seq<u8>, more: Seq<u8>, max: int)
    requires
        drained(buf, max).2 is None,
    ensures
        ({
            let (first, rest, stop) = drained(buf, max);
            let (second, end, reason) = drained(rest + more, max);
            drained(buf + more, max) == (first + second, end, reason)
        }),
    decreases buf.len(),
{
    let (first, rest, stop) = drained(buf, max);
    let (second, end, reason) = drained(rest + more, max);
    if buf.len() == 0 {
        assert(first + second =~= second);
    } else {
        match syntax::decoded_packet(buf, max) {
            Err(e) => {
                assert(first + second =~= second);
            },
            Ok((p, n)) => {
                syntax::law_packet_prefix(buf, more, max);
                syntax::lemma_packet_size(buf, max);
                lemma_drained_more(buf.skip(n), more, max);
                assert((buf + more).skip(n) =~= buf.skip(n) + more);
                let tail = drained(buf.skip(n), max).0;
                assert(seq![p] + (tail + second) =~= first + second);
            },
        }
    }
}

/// How a stream is cut into fragments does not matter: two fragments give the packets, the state
/// and the error that the two as one give.
pub proof fn law_fragments(s: Parsing, a: Seq<u8>, b: Seq<u8>)
    requires
        s.pushed(a).0 is Ok,
    ensures
        ({
            let (first, middle) = s.pushed(a);
            let (second, end) = middle.pushed(b);
            let (both, after) = s.pushed(a + b);
            &&& after == end
            &&& match second {
                Ok(packets) => both == Ok::<Seq<syntax::PacketModel>, ContainerError>(
                    first->Ok_0 + packets,
                ),
                Err(e) => both == Err::<Seq<syntax::PacketModel>, ContainerError>(e),
            }
        }),
{
    let (first, middle) = s.pushed(a);
    let whole = s.buf + a;
    assert(s.buf + (a + b) =~= whole + b);
    if s.prefix_done {
        lemma_drained_more(whole, b, s.max_packet as int);
    } else if whole.len() < 32 {
        assert(middle.buf + b =~= whole + b);
        let second = middle.pushed(b).0;
        if let Ok(packets) = second {
            assert(first->Ok_0 + packets =~= packets);
        }
    } else {
        syntax::lemma_header_prefix(whole);
        syntax::lemma_header_prefix(whole + b);
        assert((whole + b).take(32) =~= whole.take(32));
        let h = syntax::decoded_header(whole)->Ok_0;
        let n = 32 + h.front_len as int;
        if whole.len() < n {
            assert(middle.buf + b =~= whole + b);
            let second = middle.pushed(b).0;
            if let Ok(packets) = second {
                assert(first->Ok_0 + packets =~= packets);
            }
        } else {
            assert((whole + b).subrange(32, n) =~= whole.subrange(32, n));
            assert((whole + b).skip(n) =~= whole.skip(n) + b);
            lemma_drained_more(whole.skip(n), b, s.max_packet as int);
        }
    }
}

impl Default for IncrementalParser {
    fn default() -> (r: Self)
        ensures
            r.model() == (Parsing {
                buf: Seq::empty(),
                prefix_done: false,
                max_packet: 134_217_728,
            }),
    {
        IncrementalParser { buf: Vec::new(), prefix_done: false, max_packet: DEFAULT_MAX_PACKET }
    }
}

/// What owned packets are.
pub open spec fn contents(packets: Seq<Packet>) -> Seq<syntax::PacketModel> {
    Seq::new(packets.len(), |i: int| packets[i].model())
}

impl IncrementalParser {
    pub open spec fn model(&self) -> Parsing {
        Parsing { buf: self.buf@, prefix_done: self.prefix_done, max_packet: self.max_packet }
    }

    /// Takes the packets of the buffer.
    fn take_packets(&mut self) -> (r: Result<Vec<Packet>, ContainerError>)
        ensures
            final(self).model() == old(self).model().packets().1,
            match r {
                Ok(packets) => old(self).model().packets().0 == Ok::<
                    Seq<syntax::PacketModel>,
                    ContainerError,
                >(contents(packets@)),
                Err(e) => old(self).model().packets().0 == Err::<
                    Seq<syntax::PacketModel>,
                    ContainerError,
                >(e),
            },
    {
        let ghost max = self.max_packet as int;
        let ghost all = drained(self.buf@, max);
        let mut out: Vec<Packet> = Vec::new();
        assert(contents(out@) + all.0 =~= all.0);
        while self.buf.len() > 0
            invariant_except_break
                max == self.max_packet,
                self.max_packet == old(self).max_packet,
                self.prefix_done == old(self).prefix_done,
                all == drained(old(self).buf@, max),
                ({
                    let now = drained(self.buf@, max);
                    all == (contents(out@) + now.0, now.1, now.2)
                }),
            ensures
                self.max_packet == old(self).max_packet,
                self.prefix_done == old(self).prefix_done,
                all == drained(old(self).buf@, max),
                max == old(self).max_packet,
                all == (contents(out@), self.buf@, None::<ContainerError>),
            decreases self.buf@.len(),
        {
            let ghost before = contents(out@);
            match decode_packet(self.buf.as_slice(), self.max_packet) {
                Ok((packet, n)) => {
                    proof {
                        syntax::lemma_packet_size(self.buf@, max);
                    }
                    let ghost now = drained(self.buf@.skip(n as int), max);
                    let rest: Vec<u8> = self.buf.split_off(n);
                    assert(rest@ =~= self.buf@.take(0) + rest@);
                    self.buf = rest;
                    let ghost p = packet.model();
                    out.push(packet);
                    proof {
                        assert(contents(out@) =~= before.push(p));
                        assert(before + (seq![p] + now.0) =~= contents(out@) + now.0);
                    }
                },
                Err(e) => {
                    assert(before + Seq::<syntax::PacketModel>::empty() =~= before);
                    if e == ContainerError::UnexpectedEof {
                        break;
                    }
                    return Err(e);
                },
            }
        }
        Ok(out)
    }

    /// Appends an arbitrary fragment and returns every packet that it completes.
    pub fn push(&mut self, c: &[u8]) -> (r: Result<Vec<Packet>, ContainerError>)
        ensures
            final(self).model() == old(self).model().pushed(c@).1,
            match r {
                Ok(packets) => old(self).model().pushed(c@).0 == Ok::<
                    Seq<syntax::PacketModel>,
                    ContainerError,
                >(contents(packets@)),
                Err(e) => old(self).model().pushed(c@).0 == Err::<
                    Seq<syntax::PacketModel>,
                    ContainerError,
                >(e),
            },
    {
        put_slice(c, &mut self.buf);
        let none: Vec<Packet> = Vec::new();
        assert(contents(none@) =~= Seq::empty());
        if !self.prefix_done {
            if self.buf.len() < 32 {
                return Ok(none);
            }
            let h: FileHeader = match decode_header(self.buf.as_slice()) {
                Ok(h) => h,
                Err(e) => {
                    return Err(e);
                },
            };
            let len: usize = h.front_len as usize;
            if self.buf.len() - 32 < len {
                return Ok(none);
            }
            match decode_front(&self.buf.as_slice()[32..32 + len], h.stream_count) {
                Ok(_) => {},
                Err(e) => {
                    return Err(e);
                },
            }
            let ghost whole = self.buf@;
            let rest: Vec<u8> = self.buf.split_off(32 + len);
            assert(rest@ =~= whole.skip(32 + len));
            self.buf = rest;
            self.prefix_done = true;
        }
        self.take_packets()
    }

    /// Ends the stream: nothing may be left over.
    pub fn finish(self) -> (r: Result<(), ContainerError>)
        ensures
            r == if self.buf@.len() == 0 {
                Ok::<(), ContainerError>(())
            } else {
                Err(ContainerError::TrailingData)
            },
    {
        if self.buf.len() == 0 {
            Ok(())
        } else {
            Err(ContainerError::TrailingData)
        }
    }
}

} // verus!
