//! What an incremental parser makes of its input, whatever the fragments.
use crate::container::v1::syntax;
use crate::container::v1::{ContainerError, FileHeader, StreamDesc};
use vstd::prelude::*;

verus! {

/// What an incremental parser knows between fragments.
pub struct Flow {
    /// Bytes that were fed and not yet taken as packets.
    pub pending: Seq<u8>,
    /// The header and front index have been taken.
    pub prefix_done: bool,
    pub header: Option<FileHeader>,
    pub front: Option<syntax::FrontModel>,
    pub max_packet: int,
    pub max_buffer: int,
}

/// What came of one step: the packets that were complete, each with its stream, and the error that
/// ended the step, if one did.
pub struct Drained {
    pub flow: Flow,
    pub packets: Seq<(syntax::PacketModel, Option<StreamDesc>)>,
    pub error: Option<ContainerError>,
}

impl Flow {
    pub open spec fn with_pending(self, pending: Seq<u8>) -> Flow {
        Flow { pending, ..self }
    }

    /// Takes the header and the front index, once they are complete.
    #[verifier::opaque]
    pub open spec fn opened(self) -> (Flow, Option<ContainerError>) {
        if self.prefix_done || self.pending.len() < 32 {
            (self, None)
        } else {
            match syntax::decoded_header(self.pending.take(32)) {
                Err(e) => (self, Some(e)),
                Ok(h) => {
                    let seen = Flow { header: Some(h), ..self };
                    let n = 32 + h.front_len;
                    if n > usize::MAX {
                        (seen, Some(ContainerError::BadHeader))
                    } else if n > self.max_buffer {
                        (seen, Some(ContainerError::ResourceLimit))
                    } else if self.pending.len() < n {
                        (seen, None)
                    } else {
                        match syntax::decoded_front(
                            self.pending.subrange(32, n),
                            h.stream_count as int,
                        ) {
                            Err(e) => (seen, Some(e)),
                            Ok(front) => (
                                Flow {
                                    front: Some(front),
                                    prefix_done: true,
                                    pending: self.pending.skip(n),
                                    ..seen
                                },
                                None,
                            ),
                        }
                    }
                },
            }
        }
    }

    /// The stream that a packet belongs to; without a front index nothing is looked up.
    pub open spec fn route(self, p: syntax::PacketModel) -> Result<
        Option<StreamDesc>,
        ContainerError,
    > {
        match self.front {
            None => Ok(None),
            Some(front) => syntax::routed(front.streams, p),
        }
    }

    /// The next complete packet, its stream and its length.
    #[verifier::opaque]
    pub open spec fn next(self) -> Result<
        Option<(syntax::PacketModel, Option<StreamDesc>, int)>,
        ContainerError,
    > {
        if !self.prefix_done || self.pending.len() == 0 {
            Ok(None)
        } else {
            match syntax::decoded_packet(self.pending, self.max_packet) {
                Err(ContainerError::UnexpectedEof) => Ok(None),
                Err(e) => Err(e),
                Ok((p, n)) => match self.route(p) {
                    Err(e) => Err(e),
                    Ok(stream) => Ok(Some((p, stream, n))),
                },
            }
        }
    }

    /// Takes packets while they are complete.
    pub open spec fn drained(self) -> Drained
        decreases self.pending.len(),
    {
        match self.next() {
            Err(e) => Drained { flow: self, packets: Seq::empty(), error: Some(e) },
            Ok(None) => Drained { flow: self, packets: Seq::empty(), error: None },
            Ok(Some((p, stream, n))) => if n <= 0 || n > self.pending.len() {
                Drained { flow: self, packets: Seq::empty(), error: None }
            } else {
                let rest = self.with_pending(self.pending.skip(n)).drained();
                Drained {
                    flow: rest.flow,
                    packets: seq![(p, stream)] + rest.packets,
                    error: rest.error,
                }
            },
        }
    }

    /// What is left after the first `k` packets.
    pub open spec fn after(self, k: int) -> Flow
        decreases k,
    {
        if k <= 0 {
            self
        } else {
            match self.next() {
                Ok(Some((p, stream, n))) => self.with_pending(self.pending.skip(n)).after(k - 1),
                _ => self,
            }
        }
    }

    /// Takes what is complete.
    pub open spec fn advanced(self) -> Drained {
        let (flow, error) = self.opened();
        match error {
            Some(e) => Drained { flow, packets: Seq::empty(), error: Some(e) },
            None => flow.drained(),
        }
    }

    /// Feeds a fragment.
    pub open spec fn fed(self, fragment: Seq<u8>) -> Drained {
        self.with_pending(self.pending + fragment).advanced()
    }
}

/// One step after another.
pub open spec fn joined(first: Drained, second: Drained) -> Drained {
    match first.error {
        Some(e) => first,
        None => Drained {
            flow: second.flow,
            packets: first.packets + second.packets,
            error: second.error,
        },
    }
}

pub proof fn lemma_next_size(flow: Flow)
    ensures
        flow.next() matches Ok(Some((p, stream, n))) ==> 32 <= n <= flow.pending.len(),
{
    reveal(Flow::next);
    syntax::lemma_packet_size(flow.pending, flow.max_packet);
}

/// A complete packet, or a refusal, does not depend on what follows.
proof fn lemma_next_prefix(flow: Flow, rest: Seq<u8>)
    requires
        flow.next() != Ok::<
            Option<(syntax::PacketModel, Option<StreamDesc>, int)>,
            ContainerError,
        >(None),
    ensures
        flow.with_pending(flow.pending + rest).next() == flow.next(),
{
    reveal(Flow::next);
    syntax::law_packet_prefix(flow.pending, rest, flow.max_packet);
}

proof fn lemma_drained_append(flow: Flow, rest: Seq<u8>)
    ensures
        ({
            let d = flow.drained();
            let longer = flow.with_pending(flow.pending + rest).drained();
            &&& longer.error == joined(
                d,
                d.flow.with_pending(d.flow.pending + rest).drained(),
            ).error
            &&& longer.packets == joined(
                d,
                d.flow.with_pending(d.flow.pending + rest).drained(),
            ).packets
            &&& d.error is None ==> longer.flow == d.flow.with_pending(
                d.flow.pending + rest,
            ).drained().flow
            &&& d.flow.prefix_done == flow.prefix_done
        }),
    decreases flow.pending.len(),
{
    let longer = flow.with_pending(flow.pending + rest);
    lemma_next_size(flow);
    match flow.next() {
        Err(e) => {
            lemma_next_prefix(flow, rest);
        },
        Ok(None) => {
            assert(Seq::<(syntax::PacketModel, Option<StreamDesc>)>::empty()
                + longer.drained().packets =~= longer.drained().packets);
        },
        Ok(Some((p, stream, n))) => {
            lemma_next_prefix(flow, rest);
            let shorter = flow.with_pending(flow.pending.skip(n));
            lemma_drained_append(shorter, rest);
            assert((flow.pending + rest).skip(n) =~= flow.pending.skip(n) + rest);
            let d = shorter.drained();
            let tail = d.flow.with_pending(d.flow.pending + rest).drained().packets;
            assert(seq![(p, stream)] + (d.packets + tail) =~= (seq![(p, stream)] + d.packets)
                + tail);
        },
    }
}

/// Taking nothing more: a drained flow that meets no error has no complete packet left.
proof fn lemma_opened_append(flow: Flow, rest: Seq<u8>)
    ensures
        ({
            let longer = flow.with_pending(flow.pending + rest);
            let (part, error) = flow.opened();
            &&& error is Some ==> longer.opened().1 == error
            &&& error is None && part.prefix_done ==> longer.opened() == (
                part.with_pending(part.pending + rest),
                None::<ContainerError>,
            )
            &&& error is None && !part.prefix_done ==> longer.opened() == part.with_pending(
                part.pending + rest,
            ).opened()
        }),
{
    reveal(Flow::opened);
    let longer = flow.with_pending(flow.pending + rest);
    if !flow.prefix_done && flow.pending.len() >= 32 {
        assert(longer.pending.take(32) =~= flow.pending.take(32));
        if let Ok(h) = syntax::decoded_header(flow.pending.take(32)) {
            let n = 32 + h.front_len;
            if flow.pending.len() >= n {
                assert(longer.pending.subrange(32, n) =~= flow.pending.subrange(32, n));
                assert(longer.pending.skip(n) =~= flow.pending.skip(n) + rest);
            }
        }
    }
}

proof fn lemma_opened_done(flow: Flow)
    requires
        flow.prefix_done,
    ensures
        flow.opened() == (flow, None::<ContainerError>),
{
    reveal(Flow::opened);
}

/// Fragments do not matter: feeding two fragments one after the other gives the packets, the error
/// and the state that feeding both at once gives. After an error nothing more is taken.
pub proof fn law_fragments(flow: Flow, a: Seq<u8>, b: Seq<u8>)
    ensures
        ({
            let first = flow.fed(a);
            let both = flow.fed(a + b);
            let chain = joined(first, first.flow.fed(b));
            &&& both.packets == chain.packets
            &&& both.error == chain.error
            &&& first.error is None ==> both.flow == chain.flow
        }),
{
    let start = flow.with_pending(flow.pending + a);
    let longer = flow.with_pending(flow.pending + (a + b));
    assert(flow.pending + (a + b) =~= (flow.pending + a) + b);
    lemma_opened_append(start, b);
    let (part, error) = start.opened();
    if error is None {
        lemma_drained_append(part, b);
        if part.prefix_done {
            let d = part.drained();
            lemma_opened_done(d.flow.with_pending(d.flow.pending + b));
        } else {
            let later = part.with_pending(part.pending + b);
            reveal(Flow::next);
            assert(part.drained().flow == part);
            assert(Seq::<(syntax::PacketModel, Option<StreamDesc>)>::empty()
                + later.advanced().packets =~= later.advanced().packets);
        }
    }
}

/// The packets before the `k`th leave the rest as they were.
pub proof fn lemma_after(flow: Flow, k: int)
    requires
        0 <= k < flow.drained().packets.len(),
    ensures
        flow.after(k).drained().packets == flow.drained().packets.skip(k),
        flow.after(k).drained().flow == flow.drained().flow,
        flow.after(k).drained().error == flow.drained().error,
        flow.after(k).next() matches Ok(Some((p, stream, n))) && (p, stream)
            == flow.drained().packets[k] && 32 <= n <= flow.after(k).pending.len() && flow.after(
            k + 1,
        ) == flow.after(k).with_pending(flow.after(k).pending.skip(n)),
    decreases k,
{
    lemma_next_size(flow);
    if let Ok(Some((p, stream, n))) = flow.next() {
        let rest = flow.with_pending(flow.pending.skip(n));
        if k > 0 {
            lemma_after(rest, k - 1);
            assert(flow.drained().packets.skip(k) =~= rest.drained().packets.skip(k - 1));
        } else {
            assert(flow.drained().packets.skip(0) =~= flow.drained().packets);
            assert(rest.after(0) == rest);
        }
    }
}

/// A flow that reads packets of these streams, with nothing pending.
pub open spec fn reading(front: syntax::FrontModel, flow: Flow) -> bool {
    flow.prefix_done && flow.front == Some(front) && flow.max_packet >= 134_217_728
        && flow.pending.len() == 0
}

pub proof fn lemma_larger_ceiling(b: Seq<u8>, max_packet: int)
    requires
        max_packet >= 134_217_728,
        syntax::decoded_packet(b, 134_217_728) is Ok,
    ensures
        syntax::decoded_packet(b, max_packet) == syntax::decoded_packet(b, 134_217_728),
{
}

/// The packets of a routable epoch are all taken.
proof fn lemma_range_flows(flow: Flow, front: syntax::FrontModel, bytes: Seq<u8>, pos: int)
    requires
        reading(front, flow),
        0 <= pos <= bytes.len(),
        syntax::route_error(front.streams, bytes, pos) is None,
    ensures
        flow.with_pending(bytes.skip(pos)).drained().error is None,
        flow.with_pending(bytes.skip(pos)).drained().flow == flow,
    decreases bytes.len() - pos,
{
    reveal(Flow::next);
    let here = flow.with_pending(bytes.skip(pos));
    if pos == bytes.len() {
        assert(bytes.skip(pos) =~= Seq::empty());
        assert(flow.pending =~= Seq::empty());
    } else {
        syntax::lemma_packet_size(bytes.skip(pos), 134_217_728);
        lemma_larger_ceiling(bytes.skip(pos), flow.max_packet);
        if let Ok((p, n)) = syntax::decoded_packet(bytes.skip(pos), 134_217_728) {
            lemma_range_flows(flow, front, bytes, pos + n);
            assert(bytes.skip(pos).skip(n) =~= bytes.skip(pos + n));
        }
    }
}

proof fn lemma_routes(streams: Seq<StreamDesc>, epochs: Seq<syntax::EpochRange>, i: int, k: int)
    requires
        0 <= i <= k < epochs.len(),
        syntax::routes_error(streams, epochs, i) is None,
    ensures
        syntax::route_error(streams, epochs[k].bytes, 0) is None,
    decreases k - i,
{
    if i < k {
        lemma_routes(streams, epochs, i + 1, k);
    }
}

proof fn lemma_ranges_flow(
    flow: Flow,
    front: syntax::FrontModel,
    epochs: Seq<syntax::EpochRange>,
    k: int,
)
    requires
        reading(front, flow),
        0 <= k <= epochs.len(),
        syntax::routes_error(front.streams, epochs, 0) is None,
    ensures
        flow.with_pending(syntax::payload_before(epochs, k)).drained().error is None,
        flow.with_pending(syntax::payload_before(epochs, k)).drained().flow == flow,
    decreases k,
{
    if k > 0 {
        let bytes = epochs[k - 1].bytes;
        let before = flow.with_pending(syntax::payload_before(epochs, k - 1));
        lemma_ranges_flow(flow, front, epochs, k - 1);
        lemma_routes(front.streams, epochs, 0, k - 1);
        lemma_range_flows(flow, front, bytes, 0);
        assert(bytes.skip(0) =~= bytes);
        lemma_drained_append(before, bytes);
        assert(flow.pending + bytes =~= bytes);
    } else {
        reveal(Flow::next);
        assert(flow.pending =~= syntax::payload_before(epochs, k));
    }
}

/// The front of a file from the checked builder is taken, and the packets are left.
pub proof fn lemma_file_opened(
    streams: Seq<StreamDesc>,
    epochs: Seq<syntax::EpochRange>,
    max_packet: int,
    max_buffer: int,
)
    requires
        syntax::build_error(streams, epochs) is None,
        syntax::file_len(streams, epochs) <= usize::MAX,
        syntax::file_base(streams.len() as int, epochs.len() as int) <= u32::MAX,
        forall|i: int| 0 <= i < streams.len() ==> syntax::stream_ok(#[trigger] streams[i]),
        max_buffer >= syntax::file_base(streams.len() as int, epochs.len() as int),
    ensures
        ({
            let fresh = Flow {
                pending: Seq::empty(),
                prefix_done: false,
                header: None,
                front: None,
                max_packet,
                max_buffer,
            };
            let b = syntax::file_bytes(streams, epochs);
            let base = syntax::file_base(streams.len() as int, epochs.len() as int);
            &&& fresh.pending + b == b
            &&& b.skip(base) == syntax::payload_before(epochs, epochs.len() as int)
            &&& base <= b.len()
            &&& fresh.with_pending(b).opened() == (
                Flow {
                    pending: b.skip(base),
                    prefix_done: true,
                    header: Some(syntax::file_header(streams, epochs)),
                    front: Some(syntax::file_front(streams, epochs)),
                    max_packet,
                    max_buffer,
                },
                None::<ContainerError>,
            )
        }),
{
    let fresh = Flow {
        pending: Seq::empty(),
        prefix_done: false,
        header: None,
        front: None,
        max_packet,
        max_buffer,
    };
    let b = syntax::file_bytes(streams, epochs);
    let base = syntax::file_base(streams.len() as int, epochs.len() as int);
    let all = syntax::payload_before(epochs, epochs.len() as int);
    syntax::law_checked_ids(epochs);
    syntax::law_file_write_read(streams, epochs);
    assert(fresh.pending + b =~= b);
    syntax::lemma_header_prefix(b);
    assert(b.skip(base) =~= all);
    reveal(Flow::opened);
}

/// A file from the checked builder is taken whole: feeding it to a fresh parser meets no error,
/// leaves nothing pending and gives the front index of the file.
pub proof fn law_file_flows(
    streams: Seq<StreamDesc>,
    epochs: Seq<syntax::EpochRange>,
    max_packet: int,
    max_buffer: int,
)
    requires
        syntax::build_error(streams, epochs) is None,
        syntax::file_len(streams, epochs) <= usize::MAX,
        syntax::file_base(streams.len() as int, epochs.len() as int) <= u32::MAX,
        forall|i: int| 0 <= i < streams.len() ==> syntax::stream_ok(#[trigger] streams[i]),
        max_packet >= 134_217_728,
        max_buffer >= syntax::file_base(streams.len() as int, epochs.len() as int),
    ensures
        ({
            let fresh = Flow {
                pending: Seq::empty(),
                prefix_done: false,
                header: None,
                front: None,
                max_packet,
                max_buffer,
            };
            let d = fresh.fed(syntax::file_bytes(streams, epochs));
            &&& d.error is None
            &&& d.flow.pending == Seq::<u8>::empty()
            &&& d.flow.front == Some(syntax::file_front(streams, epochs))
            &&& d.flow.header == Some(syntax::file_header(streams, epochs))
        }),
{
    lemma_file_opened(streams, epochs, max_packet, max_buffer);
    let front = syntax::file_front(streams, epochs);
    let open = Flow {
        pending: Seq::empty(),
        prefix_done: true,
        header: Some(syntax::file_header(streams, epochs)),
        front: Some(front),
        max_packet,
        max_buffer,
    };
    lemma_ranges_flow(open, front, epochs, epochs.len() as int);
}

/// After the last packet nothing more is taken.
pub proof fn lemma_after_all(flow: Flow)
    ensures
        ({
            let d = flow.drained();
            let last = flow.after(d.packets.len() as int);
            &&& last == d.flow
            &&& last.drained().packets == Seq::<(syntax::PacketModel, Option<StreamDesc>)>::empty()
            &&& last.drained().flow == d.flow
            &&& last.drained().error == d.error
        }),
    decreases flow.pending.len(),
{
    lemma_next_size(flow);
    if let Ok(Some((p, stream, n))) = flow.next() {
        lemma_after_all(flow.with_pending(flow.pending.skip(n)));
    }
}

} // verus!
