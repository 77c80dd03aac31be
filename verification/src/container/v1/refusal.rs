//! A consumer that refuses a packet gets it again.
use crate::container::v1::flow;
use crate::container::v1::flow::Flow;
use crate::container::v1::parser;
use crate::container::v1::parser::StreamPushError;
use crate::container::v1::syntax;
use crate::container::v1::{ContainerError, PacketView, StreamDesc};
use vstd::prelude::*;

verus! {

/// The consumer takes the packets before number `k` and refuses that one, with this error.
pub open spec fn refuses<E, F: FnMut(PacketView<'_>) -> Result<(), E>>(
    consume: F,
    packets: Seq<(syntax::PacketModel, Option<StreamDesc>)>,
    k: int,
    e: E,
) -> bool {
    &&& 0 <= k < packets.len()
    &&& forall|i: int, answer: Result<(), E>|
        0 <= i < k && #[trigger] parser::handed::<E, F>(consume, packets[i].0, answer)
            ==> answer is Ok
    &&& forall|answer: Result<(), E>|
        #[trigger] parser::handed::<E, F>(consume, packets[k].0, answer) ==> answer == Err::<(), E>(
            e,
        )
}

/// Where a step ends at which the consumer refuses a packet: with the consumer's error, before that
/// packet. What is left gives that packet again and then all later ones, and ends where the whole
/// would have ended.
pub proof fn law_refused_packet_stays<E, F: FnMut(PacketView<'_>) -> Result<(), E>>(
    start: Flow,
    consume: F,
    k: int,
    e: E,
    after: Flow,
    r: Result<(), StreamPushError<E>>,
)
    requires
        refuses::<E, F>(consume, start.advanced().packets, k, e),
        parser::stepped::<E, F>(start, consume, after, r),
    ensures
        r == Err::<(), StreamPushError<E>>(StreamPushError::Consumer(e)),
        parser::took::<E, F>(consume, start.advanced().packets, k),
        parser::handed::<E, F>(consume, start.advanced().packets[k].0, Err(e)),
        after.fed(Seq::empty()).packets == start.advanced().packets.skip(k),
        after.fed(Seq::empty()).error == start.advanced().error,
        after.fed(Seq::empty()).flow == start.advanced().flow,
{
    let open = start.opened().0;
    let packets = open.drained().packets;
    match r {
        Ok(()) => {
            assert(parser::accepted::<E, F>(consume, packets[k].0));
        },
        Err(StreamPushError::Container(_)) => {
            assert(parser::accepted::<E, F>(consume, packets[k].0));
        },
        Err(StreamPushError::Consumer(f)) => {
            let j = choose|j: int|
                0 <= j < packets.len() && after == #[trigger] open.after(j) && parser::took::<E, F>(
                    consume,
                    packets,
                    j,
                ) && parser::handed::<E, F>(consume, packets[j].0, Err(f));
            if j < k {
                assert(parser::handed::<E, F>(consume, packets[j].0, Err(f)));
            } else if j > k {
                assert(parser::accepted::<E, F>(consume, packets[k].0));
            }
            flow::lemma_after(open, k);
            lemma_after_done(start, k);
            assert(after.pending + Seq::<u8>::empty() =~= after.pending);
        },
    }
}

/// A flow whose front was taken, and that has packets, does not take it again.
proof fn lemma_after_done(start: Flow, k: int)
    requires
        0 <= k < start.opened().0.drained().packets.len(),
    ensures
        start.opened().0.after(k).opened() == (
            start.opened().0.after(k),
            None::<ContainerError>,
        ),
{
    reveal(Flow::opened);
    reveal(Flow::next);
    lemma_done_kept(start.opened().0, k);
}

proof fn lemma_done_kept(flow: Flow, k: int)
    requires
        flow.prefix_done,
    ensures
        flow.after(k).prefix_done,
    decreases k,
{
    if k > 0 {
        if let Ok(Some((p, stream, n))) = flow.next() {
            lemma_done_kept(flow.with_pending(flow.pending.skip(n)), k - 1);
        }
    }
}

/// A consumer that takes everything, handed nothing new after a refusal, gets the refused packet and
/// all later ones, and the parser is where it would have been without the refusal.
pub proof fn law_refused_packet_again<
    E,
    F: FnMut(PacketView<'_>) -> Result<(), E>,
    G: FnMut(PacketView<'_>) -> Result<(), E>,
>(
    start: Flow,
    consume: F,
    k: int,
    e: E,
    after: Flow,
    r: Result<(), StreamPushError<E>>,
    again: G,
    later: Flow,
    s: Result<(), StreamPushError<E>>,
)
    requires
        refuses::<E, F>(consume, start.advanced().packets, k, e),
        parser::stepped::<E, F>(start, consume, after, r),
        parser::stepped::<E, G>(after.with_pending(after.pending + Seq::empty()), again, later, s),
        forall|p: syntax::PacketModel, answer: Result<(), E>|
            #[trigger] parser::handed::<E, G>(again, p, answer) ==> answer is Ok,
    ensures
        later == start.advanced().flow,
        match s {
            Ok(()) => start.advanced().error is None,
            Err(StreamPushError::Container(f)) => start.advanced().error == Some(f),
            Err(StreamPushError::Consumer(_)) => false,
        },
        parser::took::<E, G>(
            again,
            start.advanced().packets.skip(k),
            start.advanced().packets.len() - k,
        ),
{
    law_refused_packet_stays::<E, F>(start, consume, k, e, after, r);
    let open = start.opened().0;
    let packets = open.drained().packets;
    let next = after.with_pending(after.pending + Seq::empty());
    assert(next.pending =~= after.pending);
    assert(next.opened().1 is None) by {
        lemma_opened_quiet::<E, F>(start, consume, e, after, r);
    }
    if let Err(StreamPushError::Consumer(f)) = s {
        let left = next.opened().0;
        let j = choose|j: int|
            0 <= j < left.drained().packets.len() && later == #[trigger] left.after(j)
                && parser::took::<E, G>(again, left.drained().packets, j) && parser::handed::<E, G>(
                again,
                left.drained().packets[j].0,
                Err(f),
            );
        assert(parser::handed::<E, G>(again, left.drained().packets[j].0, Err(f)));
    }
}

/// After a refusal the front is not taken again.
proof fn lemma_opened_quiet<E, F: FnMut(PacketView<'_>) -> Result<(), E>>(
    start: Flow,
    consume: F,
    e: E,
    after: Flow,
    r: Result<(), StreamPushError<E>>,
)
    requires
        start.opened().1 is None,
        parser::stepped::<E, F>(start, consume, after, r),
        r == Err::<(), StreamPushError<E>>(StreamPushError::Consumer(e)),
    ensures
        after.opened() == (after, None::<ContainerError>),
{
    let open = start.opened().0;
    let packets = open.drained().packets;
    let j = choose|j: int|
        0 <= j < packets.len() && after == #[trigger] open.after(j) && parser::took::<E, F>(
            consume,
            packets,
            j,
        ) && parser::handed::<E, F>(consume, packets[j].0, Err(e));
    lemma_after_done(start, j);
}

} // verus!
