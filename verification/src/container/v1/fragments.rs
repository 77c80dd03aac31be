//! Streams that arrive in any number of fragments.
use crate::container::v1::flow;
use crate::container::v1::flow::Flow;
use crate::container::v1::parser;
use crate::container::v1::syntax;
use crate::container::v1::{ContainerError, StreamDesc};
use vstd::prelude::*;

verus! {

/// The first `k` fragments, one after the other.
pub open spec fn glued(fragments: Seq<Seq<u8>>, k: int) -> Seq<u8>
    decreases k,
{
    if k <= 0 {
        Seq::empty()
    } else {
        glued(fragments, k - 1) + fragments[k - 1]
    }
}

/// The state after the first `k` fragments.
pub open spec fn reached(start: Flow, fragments: Seq<Seq<u8>>, k: int) -> Flow
    decreases k,
{
    if k <= 0 {
        start
    } else {
        reached(start, fragments, k - 1).fed(fragments[k - 1]).flow
    }
}

/// The packets that the first `k` fragments give.
pub open spec fn taken(start: Flow, fragments: Seq<Seq<u8>>, k: int) -> Seq<
    (syntax::PacketModel, Option<StreamDesc>),
>
    decreases k,
{
    if k <= 0 {
        Seq::empty()
    } else {
        taken(start, fragments, k - 1) + reached(start, fragments, k - 1).fed(
            fragments[k - 1],
        ).packets
    }
}

/// Each of the first `k` fragments is taken without error.
pub open spec fn smooth(start: Flow, fragments: Seq<Seq<u8>>, k: int) -> bool {
    forall|i: int|
        0 <= i < k ==> (#[trigger] reached(start, fragments, i)).fed(fragments[i]).error is None
}

/// Packets without their streams.
pub open spec fn bare(packets: Seq<(syntax::PacketModel, Option<StreamDesc>)>) -> Seq<
    syntax::PacketModel,
> {
    Seq::new(packets.len(), |k: int| packets[k].0)
}

/// Packets that come with the streams they belong to.
pub open spec fn all_routed(
    packets: Seq<(syntax::PacketModel, Option<StreamDesc>)>,
    streams: Seq<StreamDesc>,
) -> bool {
    forall|k: int|
        0 <= k < packets.len() ==> syntax::routed(streams, (#[trigger] packets[k]).0) == Ok::<
            Option<StreamDesc>,
            ContainerError,
        >(packets[k].1)
}

/// The packets from `pos` on, as they are decoded one after the other.
pub open spec fn packets_at(b: Seq<u8>, pos: int) -> Seq<syntax::PacketModel>
    decreases b.len() - pos,
{
    if pos < 0 || pos >= b.len() {
        Seq::empty()
    } else {
        match syntax::decoded_packet(b.skip(pos), 134_217_728) {
            Err(_) => Seq::empty(),
            Ok((p, n)) => if n <= 0 {
                Seq::empty()
            } else {
                seq![p] + packets_at(b, pos + n)
            },
        }
    }
}

/// Any number of fragments gives what the whole gives, where the whole is taken without error: each
/// fragment is taken without error, the packets are the same in the same order, and so is the state
/// at the end.
pub proof fn law_any_fragments(start: Flow, fragments: Seq<Seq<u8>>, k: int)
    requires
        0 < k <= fragments.len(),
        start.fed(glued(fragments, k)).error is None,
    ensures
        smooth(start, fragments, k),
        taken(start, fragments, k) == start.fed(glued(fragments, k)).packets,
        reached(start, fragments, k) == start.fed(glued(fragments, k)).flow,
    decreases k,
{
    let last = fragments[k - 1];
    let before = glued(fragments, k - 1);
    if k == 1 {
        assert(before + last =~= last);
        assert(reached(start, fragments, 0) == start);
        let packets = start.fed(last).packets;
        assert(taken(start, fragments, 0) + packets =~= packets);
    } else {
        flow::law_fragments(start, before, last);
        law_any_fragments(start, fragments, k - 1);
    }
}

proof fn lemma_drained_shrinks(start: Flow)
    ensures
        start.drained().flow.pending.len() <= start.pending.len(),
    decreases start.pending.len(),
{
    flow::lemma_next_size(start);
    if let Ok(Some((p, stream, n))) = start.next() {
        lemma_drained_shrinks(start.with_pending(start.pending.skip(n)));
    }
}

/// No more is kept than has come.
pub proof fn lemma_kept(start: Flow, fragments: Seq<Seq<u8>>, k: int)
    requires
        0 <= k,
    ensures
        reached(start, fragments, k).pending.len() <= start.pending.len() + glued(
            fragments,
            k,
        ).len(),
    decreases k,
{
    if k > 0 {
        lemma_kept(start, fragments, k - 1);
        let before = reached(start, fragments, k - 1);
        let all = before.with_pending(before.pending + fragments[k - 1]);
        reveal(Flow::opened);
        lemma_drained_shrinks(all.opened().0);
    }
}

proof fn lemma_glued_grows(fragments: Seq<Seq<u8>>, i: int, k: int)
    requires
        0 <= i <= k,
    ensures
        glued(fragments, i).len() <= glued(fragments, k).len(),
    decreases k - i,
{
    if i < k {
        lemma_glued_grows(fragments, i, k - 1);
    }
}

/// Every packet from `pos` on can be decoded, up to the end.
pub open spec fn readable(b: Seq<u8>, pos: int) -> bool
    decreases b.len() - pos,
{
    if pos < 0 || pos >= b.len() {
        true
    } else {
        match syntax::decoded_packet(b.skip(pos), 134_217_728) {
            Err(_) => false,
            Ok((p, n)) => n > 0 && readable(b, pos + n),
        }
    }
}

proof fn lemma_drained_readable(start: Flow, b: Seq<u8>, pos: int)
    requires
        start.prefix_done,
        start.max_packet == 134_217_728,
        0 <= pos <= b.len(),
        start.pending == b.skip(pos),
        start.drained().error is None,
        start.drained().flow.pending.len() == 0,
    ensures
        readable(b, pos),
    decreases b.len() - pos,
{
    reveal(Flow::next);
    flow::lemma_next_size(start);
    if pos < b.len() {
        if let Ok(Some((p, stream, n))) = start.next() {
            assert(start.pending.skip(n) =~= b.skip(pos + n));
            lemma_drained_readable(start.with_pending(start.pending.skip(n)), b, pos + n);
        }
    }
}

/// The payload of every packet is within a ceiling.
pub open spec fn payloads_within(packets: Seq<syntax::PacketModel>, max_packet: int) -> bool {
    forall|k: int| 0 <= k < packets.len() ==> (#[trigger] packets[k]).payload.len() <= max_packet
}

/// A packet whose payload is within another ceiling is the same under it.
proof fn lemma_other_ceiling(b: Seq<u8>, max_packet: int)
    requires
        syntax::decoded_packet(b, 134_217_728) matches Ok((p, n)) && p.payload.len() <= max_packet,
    ensures
        syntax::decoded_packet(b, max_packet) == syntax::decoded_packet(b, 134_217_728),
{
    syntax::lemma_packet_size(b, 134_217_728);
}

/// A parser takes the packets that are decoded one after the other, if its ceiling lets them pass.
proof fn lemma_drained_packets(plain: Flow, max_packet: int, b: Seq<u8>, pos: int)
    requires
        plain.prefix_done,
        plain.max_packet == 134_217_728,
        0 <= pos <= b.len(),
        plain.pending == b.skip(pos),
        plain.drained().error is None,
        plain.drained().flow.pending.len() == 0,
        payloads_within(packets_at(b, pos), max_packet),
    ensures
        ({
            let d = (Flow { max_packet, ..plain }).drained();
            &&& d.error is None
            &&& d.flow == (Flow { max_packet, ..plain.drained().flow })
            &&& d.flow.front == plain.front
            &&& d.flow.header == plain.header
            &&& bare(d.packets) == packets_at(b, pos)
            &&& plain.front matches Some(front) ==> all_routed(d.packets, front.streams)
        }),
    decreases b.len() - pos,
{
    reveal(Flow::next);
    flow::lemma_next_size(plain);
    let start = Flow { max_packet, ..plain };
    let all = start.drained().packets;
    if pos < b.len() {
        if let Ok(Some((p, stream, n))) = plain.next() {
            let next = plain.with_pending(plain.pending.skip(n));
            assert(plain.pending.skip(n) =~= b.skip(pos + n));
            let list = packets_at(b, pos);
            assert(list == seq![p] + packets_at(b, pos + n));
            assert(list[0] == p);
            assert(payloads_within(packets_at(b, pos + n), max_packet)) by {
                assert forall|k: int| 0 <= k < packets_at(b, pos + n).len() implies (
                #[trigger] packets_at(b, pos + n)[k]).payload.len() <= max_packet by {
                    assert(list[k + 1] == packets_at(b, pos + n)[k]);
                }
            }
            lemma_other_ceiling(b.skip(pos), max_packet);
            assert(start.next() == plain.next());
            lemma_drained_packets(next, max_packet, b, pos + n);
            let rest = (Flow { max_packet, ..next }).drained().packets;
            assert(start.with_pending(start.pending.skip(n)) == (Flow { max_packet, ..next }));
            assert(all == seq![(p, stream)] + rest);
            assert(bare(all) =~= seq![p] + bare(rest));
            if let Some(front) = plain.front {
                assert forall|k: int| 0 <= k < all.len() implies syntax::routed(
                    front.streams,
                    (#[trigger] all[k]).0,
                ) == Ok::<Option<StreamDesc>, ContainerError>(all[k].1) by {
                    if k > 0 {
                        assert(all[k] == rest[k - 1]);
                    }
                }
            }
        }
    } else {
        assert(bare(all) =~= Seq::empty());
    }
}

/// A file from the checked builder can arrive in any number of fragments, cut anywhere, a byte at a
/// time among others, wherever the ceiling of the parser lets its packets pass: every fragment is
/// taken without error, the packets that come out are those of the file in order, each with its
/// stream, and nothing is left over. A buffer for the whole file has room for each fragment.
pub proof fn law_file_in_fragments(
    streams: Seq<StreamDesc>,
    epochs: Seq<syntax::EpochRange>,
    fragments: Seq<Seq<u8>>,
    max_packet: int,
    max_buffer: int,
)
    requires
        syntax::build_error(streams, epochs) is None,
        syntax::file_len(streams, epochs) <= usize::MAX,
        syntax::file_base(streams.len() as int, epochs.len() as int) <= u32::MAX,
        forall|i: int| 0 <= i < streams.len() ==> syntax::stream_ok(#[trigger] streams[i]),
        payloads_within(
            packets_at(
                syntax::file_bytes(streams, epochs),
                syntax::file_base(streams.len() as int, epochs.len() as int),
            ),
            max_packet,
        ),
        max_buffer >= syntax::file_base(streams.len() as int, epochs.len() as int),
        glued(fragments, fragments.len() as int) == syntax::file_bytes(streams, epochs),
    ensures
        ({
            let start = parser::fresh_flow(max_packet, max_buffer);
            let file = syntax::file_bytes(streams, epochs);
            let base = syntax::file_base(streams.len() as int, epochs.len() as int);
            let n = fragments.len() as int;
            let last = reached(start, fragments, n);
            &&& smooth(start, fragments, n)
            &&& max_buffer >= file.len() ==> (forall|i: int|
                0 <= i < n ==> (#[trigger] reached(start, fragments, i)).pending.len()
                    + fragments[i].len() <= max_buffer)
            &&& syntax::decoded_prefix(file) matches Ok((h, front, at)) && at == base
            &&& readable(file, base)
            &&& bare(taken(start, fragments, n)) == packets_at(file, base)
            &&& all_routed(taken(start, fragments, n), streams)
            &&& last.pending == Seq::<u8>::empty()
            &&& last.front == Some(syntax::file_front(streams, epochs))
            &&& last.header == Some(syntax::file_header(streams, epochs))
        }),
{
    let start = parser::fresh_flow(max_packet, max_buffer);
    let file = syntax::file_bytes(streams, epochs);
    let base = syntax::file_base(streams.len() as int, epochs.len() as int);
    let n = fragments.len() as int;
    lemma_file_packets(streams, epochs, max_packet, max_buffer);
    if n == 0 {
        assert(file.len() >= base);
    }
    law_any_fragments(start, fragments, n);
    assert forall|i: int| 0 <= i < n implies (#[trigger] reached(start, fragments, i)).pending.len()
        + fragments[i].len() <= file.len() by {
        lemma_kept(start, fragments, i);
        lemma_glued_grows(fragments, i + 1, n);
        assert(glued(fragments, i + 1) == glued(fragments, i) + fragments[i]);
    }
}

/// What a file gives that arrives whole.
proof fn lemma_file_packets(
    streams: Seq<StreamDesc>,
    epochs: Seq<syntax::EpochRange>,
    max_packet: int,
    max_buffer: int,
)
    requires
        syntax::build_error(streams, epochs) is None,
        syntax::file_len(streams, epochs) <= usize::MAX,
        syntax::file_base(streams.len() as int, epochs.len() as int) <= u32::MAX,
        forall|i: int| 0 <= i < streams.len() ==> syntax::stream_ok(#[trigger] streams[i]),
        payloads_within(
            packets_at(
                syntax::file_bytes(streams, epochs),
                syntax::file_base(streams.len() as int, epochs.len() as int),
            ),
            max_packet,
        ),
        max_buffer >= syntax::file_base(streams.len() as int, epochs.len() as int),
    ensures
        ({
            let file = syntax::file_bytes(streams, epochs);
            let base = syntax::file_base(streams.len() as int, epochs.len() as int);
            let d = parser::fresh_flow(max_packet, max_buffer).fed(file);
            &&& d.error is None
            &&& d.flow.pending == Seq::<u8>::empty()
            &&& d.flow.front == Some(syntax::file_front(streams, epochs))
            &&& d.flow.header == Some(syntax::file_header(streams, epochs))
            &&& syntax::decoded_prefix(file) matches Ok((h, front, at)) && at == base
            &&& readable(file, base)
            &&& bare(d.packets) == packets_at(file, base)
            &&& all_routed(d.packets, streams)
            &&& 0 < base <= file.len() == syntax::file_len(streams, epochs)
        }),
{
    let file = syntax::file_bytes(streams, epochs);
    let base = syntax::file_base(streams.len() as int, epochs.len() as int);
    syntax::law_checked_ids(epochs);
    syntax::law_file_write_read(streams, epochs);
    flow::law_file_flows(streams, epochs, 134_217_728, max_buffer);
    flow::lemma_file_opened(streams, epochs, 134_217_728, max_buffer);
    let plain = parser::fresh_flow(134_217_728, max_buffer).with_pending(file).opened().0;
    lemma_drained_readable(plain, file, base);
    flow::lemma_file_opened(streams, epochs, max_packet, max_buffer);
    let open = parser::fresh_flow(max_packet, max_buffer).with_pending(file).opened().0;
    assert(open == (Flow { max_packet, ..plain }));
    lemma_drained_packets(plain, max_packet, file, base);
    assert((Flow { max_packet, ..plain }).drained().flow.pending =~= Seq::<u8>::empty());
}

} // verus!
