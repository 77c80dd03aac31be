//! What decoding a stream does not depend on: how its bytes arrive, and what came before an epoch.
use crate::container::v1::flow;
use crate::container::v1::fragments;
use crate::container::v1::session;
use crate::container::v1::session::{DecodeFailure, OutputModel, Session, VideoModel};
use crate::container::v1::syntax;
use crate::container::v1::{ContainerError, PacketKind, StreamDesc};
use crate::video;
use vstd::prelude::*;

verus! {

// ---------------------------------------------------------------------------------------------
// Fragments

proof fn lemma_after_first(
    session: Session,
    a: Seq<(syntax::PacketModel, Option<StreamDesc>)>,
    b: Seq<(syntax::PacketModel, Option<StreamDesc>)>,
    k: int,
)
    requires
        0 <= k <= a.len(),
    ensures
        session.after(a + b, k) == session.after(a, k),
    decreases k,
{
    if k > 0 {
        lemma_after_first(session, a, b, k - 1);
        assert((a + b)[k - 1] == a[k - 1]);
    }
}

proof fn lemma_after_both(
    session: Session,
    a: Seq<(syntax::PacketModel, Option<StreamDesc>)>,
    b: Seq<(syntax::PacketModel, Option<StreamDesc>)>,
    k: int,
)
    requires
        0 <= k <= b.len(),
    ensures
        session.after(a + b, a.len() + k) == session.after(a, a.len() as int).after(b, k),
    decreases k,
{
    if k > 0 {
        lemma_after_both(session, a, b, k - 1);
        assert((a + b)[a.len() + k - 1] == b[k - 1]);
    } else {
        lemma_after_first(session, a, b, a.len() as int);
    }
}

/// Fragments do not matter to decoding: the outputs of two fragments, fed one after the other, and
/// the session after them are those of both fed at once, and so is the error.
pub proof fn law_session_fragments(session: Session, flow: flow::Flow, a: Seq<u8>, b: Seq<u8>)
    requires
        flow.fed(a).error is None,
    ensures
        ({
            let first = flow.fed(a);
            let second = first.flow.fed(b);
            let both = flow.fed(a + b);
            let (m, n) = (first.packets.len() as int, second.packets.len() as int);
            let between = session.after(first.packets, m);
            &&& both.packets.len() == m + n
            &&& both.error == second.error
            &&& both.flow == second.flow
            &&& session.after(both.packets, m + n) == between.after(second.packets, n)
            &&& forall|k: int|
                0 <= k < m ==> #[trigger] session.output(both.packets, k) == session.output(
                    first.packets,
                    k,
                )
            &&& forall|k: int|
                0 <= k < n ==> session.output(both.packets, m + k)
                    == #[trigger] between.output(second.packets, k)
        }),
{
    flow::law_fragments(flow, a, b);
    let first = flow.fed(a);
    let second = first.flow.fed(b);
    let both = flow.fed(a + b);
    let (m, n) = (first.packets.len() as int, second.packets.len() as int);
    let between = session.after(first.packets, m);
    lemma_after_both(session, first.packets, second.packets, n);
    assert forall|k: int| 0 <= k < m implies #[trigger] session.output(both.packets, k)
        == session.output(first.packets, k) by {
        lemma_after_first(session, first.packets, second.packets, k);
        assert(both.packets[k] == first.packets[k]);
    }
    assert forall|k: int| 0 <= k < n implies session.output(both.packets, m + k)
        == #[trigger] between.output(second.packets, k) by {
        lemma_after_both(session, first.packets, second.packets, k);
        assert(both.packets[m + k] == second.packets[k]);
    }
}

// ---------------------------------------------------------------------------------------------
// Outputs in order

/// What a session gives for packets, one after the other, or why one of them is refused.
pub open spec fn played(
    session: Session,
    packets: Seq<(syntax::PacketModel, Option<StreamDesc>)>,
) -> Result<Seq<OutputModel>, DecodeFailure>
    decreases packets.len(),
{
    if packets.len() == 0 {
        Ok(Seq::empty())
    } else {
        let (next, output) = session.step(packets[0].0, packets[0].1);
        match output {
            Err(e) => Err(e),
            Ok(output) => match played(next, packets.drop_first()) {
                Err(e) => Err(e),
                Ok(more) => Ok(seq![output] + more),
            },
        }
    }
}

proof fn lemma_after_next(
    session: Session,
    packets: Seq<(syntax::PacketModel, Option<StreamDesc>)>,
    k: int,
)
    requires
        0 <= k < packets.len(),
    ensures
        session.after(packets, k + 1) == session.step(packets[0].0, packets[0].1).0.after(
            packets.drop_first(),
            k,
        ),
    decreases k,
{
    if k > 0 {
        lemma_after_next(session, packets, k - 1);
        assert(packets.drop_first()[k - 1] == packets[k]);
    } else {
        assert(session.after(packets, 0) == session);
    }
}

/// Where all packets are taken, packet by packet gives the outputs in order.
pub proof fn law_played(
    session: Session,
    packets: Seq<(syntax::PacketModel, Option<StreamDesc>)>,
)
    requires
        played(session, packets) is Ok,
    ensures
        played(session, packets)->Ok_0.len() == packets.len(),
        forall|k: int|
            0 <= k < packets.len() ==> #[trigger] session.output(packets, k) == Ok::<
                OutputModel,
                DecodeFailure,
            >(played(session, packets)->Ok_0[k]),
    decreases packets.len(),
{
    if packets.len() > 0 {
        let next = session.step(packets[0].0, packets[0].1).0;
        let rest = packets.drop_first();
        let outputs = played(session, packets)->Ok_0;
        let more = played(next, rest)->Ok_0;
        law_played(next, rest);
        assert forall|k: int| 0 <= k < packets.len() implies #[trigger] session.output(packets, k)
            == Ok::<OutputModel, DecodeFailure>(outputs[k]) by {
            if k > 0 {
                lemma_after_next(session, packets, k - 1);
                assert(rest[k - 1] == packets[k]);
                assert(next.output(rest, k - 1) == Ok::<OutputModel, DecodeFailure>(more[k - 1]));
            } else {
                assert(session.after(packets, 0) == session);
            }
        }
    }
}

// ---------------------------------------------------------------------------------------------
// Epochs

/// Every decoder of the session has the bounds that its stream, of these, asks for.
pub open spec fn faithful(session: Session, streams: Seq<StreamDesc>) -> bool {
    &&& forall|i: int|
        0 <= i < session.video.len() ==> (syntax::find_stream(
            streams,
            (#[trigger] session.video[i]).0,
            0,
        ) matches Some(stream) && session.video[i].1.bounds == session::video_bounds(
            stream,
            session.limits,
        ))
    &&& forall|i: int|
        0 <= i < session.audio.len() ==> (syntax::find_stream(
            streams,
            (#[trigger] session.audio[i]).0,
            0,
        ) matches Some(stream) && session.audio[i].1 == session::audio_bounds(
            stream,
            session.limits,
        ))
}

/// Two sessions that go on alike: an epoch is running in both, and they know the same of every
/// stream.
pub open spec fn alike(s: Session, t: Session, streams: Seq<StreamDesc>) -> bool {
    &&& s.epoch.active
    &&& t.epoch.active
    &&& s.limits == t.limits
    &&& forall|id: u16|
        #![trigger syntax::find_stream(streams, id, 0)]
        syntax::find_stream(streams, id, 0) matches Some(stream) ==> {
            &&& s.video_state(id, stream) == t.video_state(id, stream)
            &&& s.audio_state(id, stream) == t.audio_state(id, stream)
        }
}

proof fn lemma_own_slot<T>(list: Seq<(u16, T)>, id: u16, value: T, i: int)
    requires
        0 <= i <= slot_of(list, id),
        i <= session::slot(list, id, i),
        session::slot(list, id, i) == slot_of(list, id),
    ensures
        ({
            let next = session::with_slot(list, id, value);
            let j = session::slot(next, id, i);
            j < next.len() && next[j].1 == value
        }),
    decreases slot_of(list, id) - i,
{
    let k = slot_of(list, id);
    session::lemma_slot(list, id, 0);
    let next = session::with_slot(list, id, value);
    if i < k {
        assert(next[i].0 == list[i].0);
        assert(session::slot(list, id, i) == session::slot(list, id, i + 1));
        session::lemma_slot(list, id, i + 1);
        lemma_own_slot(list, id, value, i + 1);
    } else {
        assert(next[i].0 == id);
    }
}

/// The place of a stream.
spec fn slot_of<T>(list: Seq<(u16, T)>, id: u16) -> int {
    session::slot(list, id, 0)
}

/// A stream's state is what was stored last.
pub proof fn lemma_stored<T>(list: Seq<(u16, T)>, id: u16, value: T)
    ensures
        ({
            let next = session::with_slot(list, id, value);
            let j = session::slot(next, id, 0);
            j < next.len() && next[j].1 == value
        }),
{
    session::lemma_slot(list, id, 0);
    lemma_own_slot(list, id, value, 0);
}

/// Storing the same of a stream in both keeps two sessions alike.
proof fn lemma_video_stored(
    s: Session,
    t: Session,
    streams: Seq<StreamDesc>,
    id: u16,
    state: VideoModel,
)
    requires
        alike(s, t, streams),
    ensures
        alike(
            Session { video: session::with_slot(s.video, id, state), ..s },
            Session { video: session::with_slot(t.video, id, state), ..t },
            streams,
        ),
{
    let sn = Session { video: session::with_slot(s.video, id, state), ..s };
    let tn = Session { video: session::with_slot(t.video, id, state), ..t };
    lemma_stored(s.video, id, state);
    lemma_stored(t.video, id, state);
    assert forall|other: u16|
        #![trigger syntax::find_stream(streams, other, 0)]
        syntax::find_stream(streams, other, 0) is Some implies {
        let stream = syntax::find_stream(streams, other, 0)->0;
        &&& sn.video_state(other, stream) == tn.video_state(other, stream)
        &&& sn.audio_state(other, stream) == tn.audio_state(other, stream)
    } by {
        let stream = syntax::find_stream(streams, other, 0)->0;
        if other != id {
            session::lemma_other_slot(s.video, id, state, other, 0);
            session::lemma_other_slot(t.video, id, state, other, 0);
            assert(sn.video_state(other, stream) == s.video_state(other, stream));
            assert(tn.video_state(other, stream) == t.video_state(other, stream));
        }
        assert(sn.audio_state(other, stream) == s.audio_state(other, stream));
        assert(tn.audio_state(other, stream) == t.audio_state(other, stream));
    }
}

proof fn lemma_audio_stored(
    s: Session,
    t: Session,
    streams: Seq<StreamDesc>,
    id: u16,
    state: crate::audio::v1::syntax::Bounds,
)
    requires
        alike(s, t, streams),
    ensures
        alike(
            Session { audio: session::with_slot(s.audio, id, state), ..s },
            Session { audio: session::with_slot(t.audio, id, state), ..t },
            streams,
        ),
{
    let sn = Session { audio: session::with_slot(s.audio, id, state), ..s };
    let tn = Session { audio: session::with_slot(t.audio, id, state), ..t };
    lemma_stored(s.audio, id, state);
    lemma_stored(t.audio, id, state);
    assert forall|other: u16|
        #![trigger syntax::find_stream(streams, other, 0)]
        syntax::find_stream(streams, other, 0) is Some implies {
        let stream = syntax::find_stream(streams, other, 0)->0;
        &&& sn.video_state(other, stream) == tn.video_state(other, stream)
        &&& sn.audio_state(other, stream) == tn.audio_state(other, stream)
    } by {
        let stream = syntax::find_stream(streams, other, 0)->0;
        if other != id {
            session::lemma_other_slot(s.audio, id, state, other, 0);
            session::lemma_other_slot(t.audio, id, state, other, 0);
            assert(sn.audio_state(other, stream) == s.audio_state(other, stream));
            assert(tn.audio_state(other, stream) == t.audio_state(other, stream));
        }
        assert(sn.video_state(other, stream) == s.video_state(other, stream));
        assert(tn.video_state(other, stream) == t.video_state(other, stream));
    }
}

/// Sessions that are alike give the same output for a packet of a running epoch, and stay alike.
proof fn lemma_step_alike(
    s: Session,
    t: Session,
    streams: Seq<StreamDesc>,
    p: syntax::PacketModel,
    stream: Option<StreamDesc>,
)
    requires
        alike(s, t, streams),
        p.kind != PacketKind::EpochStart,
        syntax::routed(streams, p) == Ok::<
            Option<StreamDesc>,
            ContainerError,
        >(stream),
    ensures
        s.step(p, stream).1 == t.step(p, stream).1,
        alike(s.step(p, stream).0, t.step(p, stream).0, streams),
{
    reveal(Session::step);
    let id = p.stream_id;
    if p.kind == PacketKind::VideoFrame {
        let desc = syntax::find_stream(streams, id, 0)->0;
        let state = s.video_state(id, desc);
        assert(state == t.video_state(id, desc));
        match video::v1::history::decoded_next(p.payload, state.history, state.bounds) {
            Err(_) => {
                lemma_video_stored(s, t, streams, id, state);
            },
            Ok((frame_id, picture, ids)) => {
                lemma_video_stored(
                    s,
                    t,
                    streams,
                    id,
                    VideoModel {
                        history: video::v1::history::extended(state.history, frame_id, picture),
                        bounds: state.bounds,
                    },
                );
            },
        }
    } else if p.kind == PacketKind::AudioFrame {
        let desc = syntax::find_stream(streams, id, 0)->0;
        let state = s.audio_state(id, desc);
        assert(state == t.audio_state(id, desc));
        lemma_audio_stored(s, t, streams, id, state);
    }
}

/// The start of an epoch makes any two sessions alike that are faithful to the same streams.
proof fn lemma_start_alike(
    s: Session,
    t: Session,
    streams: Seq<StreamDesc>,
    p: syntax::PacketModel,
    stream: Option<StreamDesc>,
)
    requires
        faithful(s, streams),
        faithful(t, streams),
        s.limits == t.limits,
        p.kind == PacketKind::EpochStart,
        s.step(p, stream).1 is Ok,
        t.step(p, stream).1 is Ok,
    ensures
        s.step(p, stream).1 == t.step(p, stream).1,
        alike(s.step(p, stream).0, t.step(p, stream).0, streams),
{
    lemma_start_plain(s, streams, p, stream);
    lemma_start_plain(t, streams, p, stream);
    reveal(Session::step);
}

/// After the start of an epoch a session knows of every stream what a new one would.
pub proof fn lemma_start_plain(
    s: Session,
    streams: Seq<StreamDesc>,
    p: syntax::PacketModel,
    stream: Option<StreamDesc>,
)
    requires
        faithful(s, streams),
        p.kind == PacketKind::EpochStart,
        s.step(p, stream).1 is Ok,
    ensures
        ({
            let after = s.step(p, stream).0;
            &&& after.epoch.active
            &&& after.limits == s.limits
            &&& forall|id: u16|
                #![trigger syntax::find_stream(streams, id, 0)]
                syntax::find_stream(streams, id, 0) matches Some(desc) ==> {
                    &&& after.video_state(id, desc) == (VideoModel {
                        history: Seq::empty(),
                        bounds: session::video_bounds(desc, s.limits),
                    })
                    &&& after.audio_state(id, desc) == session::audio_bounds(desc, s.limits)
                }
        }),
{
    reveal(Session::step);
    let after = s.step(p, stream).0;
    assert forall|id: u16|
        #![trigger syntax::find_stream(streams, id, 0)]
        syntax::find_stream(streams, id, 0) is Some implies {
        let desc = syntax::find_stream(streams, id, 0)->0;
        &&& after.video_state(id, desc) == (VideoModel {
            history: Seq::empty(),
            bounds: session::video_bounds(desc, s.limits),
        })
        &&& after.audio_state(id, desc) == session::audio_bounds(desc, s.limits)
    } by {
        let desc = syntax::find_stream(streams, id, 0)->0;
        session::lemma_slot(after.video, id, 0);
        session::lemma_slot(after.audio, id, 0);
        let k = session::slot(after.video, id, 0);
        if k < after.video.len() {
            assert(s.video[k].0 == id);
        }
        let j = session::slot(after.audio, id, 0);
        if j < after.audio.len() {
            assert(s.audio[j].0 == id);
        }
    }
}

/// Packets of declared streams keep a session faithful to these, from the first on.
pub proof fn law_faithful(
    session: Session,
    streams: Seq<StreamDesc>,
    packets: Seq<(syntax::PacketModel, Option<StreamDesc>)>,
    k: int,
)
    requires
        faithful(session, streams),
        fragments::all_routed(packets, streams),
        0 <= k <= packets.len(),
    ensures
        faithful(session.after(packets, k), streams),
        session.after(packets, k).limits == session.limits,
    decreases k,
{
    if k > 0 {
        law_faithful(session, streams, packets, k - 1);
        let before = session.after(packets, k - 1);
        assert(syntax::routed(streams, packets[k - 1].0) == Ok::<
            Option<StreamDesc>,
            ContainerError,
        >(packets[k - 1].1));
        lemma_step_faithful(before, streams, packets[k - 1].0, packets[k - 1].1);
    }
}

pub proof fn lemma_step_faithful(
    s: Session,
    streams: Seq<StreamDesc>,
    p: syntax::PacketModel,
    stream: Option<StreamDesc>,
)
    requires
        faithful(s, streams),
        syntax::routed(streams, p) == Ok::<
            Option<StreamDesc>,
            ContainerError,
        >(stream),
    ensures
        faithful(s.step(p, stream).0, streams),
        s.step(p, stream).0.limits == s.limits,
{
    reveal(Session::step);
    let id = p.stream_id;
    let next = s.step(p, stream).0;
    session::lemma_slot(s.video, id, 0);
    session::lemma_slot(s.audio, id, 0);
    assert forall|i: int| 0 <= i < next.video.len() implies (syntax::find_stream(
        streams,
        (#[trigger] next.video[i]).0,
        0,
    ) matches Some(desc) && next.video[i].1.bounds == session::video_bounds(desc, s.limits)) by {
        if i < s.video.len() {
            assert(syntax::find_stream(streams, s.video[i].0, 0) is Some);
        }
    }
    assert forall|i: int| 0 <= i < next.audio.len() implies (syntax::find_stream(
        streams,
        (#[trigger] next.audio[i]).0,
        0,
    ) matches Some(desc) && next.audio[i].1 == session::audio_bounds(desc, s.limits)) by {
        if i < s.audio.len() {
            assert(syntax::find_stream(streams, s.audio[i].0, 0) is Some);
        }
    }
}

/// Epochs are independent: an epoch gives the same outputs whatever a session decoded before it,
/// so that it can be fetched and decoded alone.
pub proof fn law_epochs_independent(
    s: Session,
    t: Session,
    streams: Seq<StreamDesc>,
    packets: Seq<(syntax::PacketModel, Option<StreamDesc>)>,
    k: int,
)
    requires
        faithful(s, streams),
        faithful(t, streams),
        s.limits == t.limits,
        fragments::all_routed(packets, streams),
        0 <= k < packets.len(),
        packets[0].0.kind == PacketKind::EpochStart,
        forall|i: int|
            0 < i < packets.len() ==> (#[trigger] packets[i]).0.kind != PacketKind::EpochStart,
        s.output(packets, 0) is Ok,
        t.output(packets, 0) is Ok,
    ensures
        s.output(packets, k) == t.output(packets, k),
        alike(s.after(packets, k + 1), t.after(packets, k + 1), streams),
    decreases k,
{
    if k == 0 {
        assert(s.after(packets, 0) == s && t.after(packets, 0) == t);
        lemma_start_alike(s, t, streams, packets[0].0, packets[0].1);
    } else {
        law_epochs_independent(s, t, streams, packets, k - 1);
        lemma_step_alike(
            s.after(packets, k),
            t.after(packets, k),
            streams,
            packets[k].0,
            packets[k].1,
        );
    }
}

} // verus!
