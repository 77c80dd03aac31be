//! What an encoder writes of the frames that it is handed can be read back.
use crate::container::v1::syntax;
use crate::container::v1::{PacketKind, StreamDesc};
use crate::media::decode;
use crate::media::laws;
use crate::media::{Backend, ClipModel, MediaError};
use crate::mux::coder::Coding;
use crate::mux::epoch;
use crate::mux::video::VideoModel;
use crate::mux::Settings;
use crate::video::v1::history;
use crate::video::v1::packets;
use crate::video::v1::syntax::Picture;
use vstd::prelude::*;

verus! {

// ---------------------------------------------------------------------------------------------
// Frames

/// The references of a decoder after packets.
pub open spec fn later(list: Seq<syntax::PacketModel>, references: Seq<(u64, Picture)>) -> Seq<
    (u64, Picture),
>
    decreases list.len(),
{
    if list.len() == 0 {
        references
    } else {
        match decode::shown_frame(Backend::Production, list[0].payload, references) {
            Err(_) => references,
            Ok((id, picture)) => later(
                list.drop_first(),
                history::extended(references, id, picture),
            ),
        }
    }
}

/// One more video packet shows one more picture.
pub proof fn lemma_one_more(
    list: Seq<syntax::PacketModel>,
    references: Seq<(u64, Picture)>,
    p: syntax::PacketModel,
    id: u64,
    picture: Picture,
)
    requires
        epoch::all_kind(list, PacketKind::VideoFrame),
        p.kind == PacketKind::VideoFrame,
        decode::shown_frames(Backend::Production, list, references) is Ok,
        decode::shown_frame(Backend::Production, p.payload, later(list, references)) == Ok::<
            (u64, Picture),
            MediaError,
        >((id, picture)),
    ensures
        decode::shown_frames(Backend::Production, list.push(p), references) == Ok::<
            Seq<Picture>,
            MediaError,
        >(decode::shown_frames(Backend::Production, list, references)->Ok_0.push(picture)),
        later(list.push(p), references) == history::extended(
            later(list, references),
            id,
            picture,
        ),
    decreases list.len(),
{
    let longer = list.push(p);
    if list.len() == 0 {
        assert(longer[0] == p);
        assert(longer.drop_first() =~= Seq::empty());
        assert(seq![picture] + Seq::<Picture>::empty() =~= Seq::<Picture>::empty().push(picture));
        let next = history::extended(references, id, picture);
        assert(later(longer.drop_first(), next) == next);
        assert(decode::shown_frames(Backend::Production, longer.drop_first(), next) == Ok::<
            Seq<Picture>,
            MediaError,
        >(Seq::empty()));
        assert(decode::shown_frames(Backend::Production, list, references) == Ok::<
            Seq<Picture>,
            MediaError,
        >(Seq::empty()));
    } else {
        let rest = list.drop_first();
        assert(longer[0] == list[0]);
        assert(longer.drop_first() =~= rest.push(p));
        assert(list[0].kind == PacketKind::VideoFrame);
        assert forall|i: int| 0 <= i < rest.len() implies (#[trigger] rest[i]).kind
            == PacketKind::VideoFrame by {
            assert(rest[i] == list[i + 1]);
        }
        let (first, shown) = decode::shown_frame(
            Backend::Production,
            list[0].payload,
            references,
        )->Ok_0;
        let next = history::extended(references, first, shown);
        lemma_one_more(rest, next, p, id, picture);
        let more = decode::shown_frames(Backend::Production, rest, next)->Ok_0;
        assert(seq![shown] + more.push(picture) =~= (seq![shown] + more).push(picture));
    }
}

/// A coder that a decoder can follow.
pub open spec fn followed(coding: Coding) -> bool {
    &&& coding.references.len() <= 4
    &&& history::distinct(coding.references)
    &&& laws::ids_below(coding.references, coding.frame_index as int)
}

/// What a decoder shows of the next frame.
pub open spec fn next_shown(coding: Coding, settings: Settings) -> Picture {
    packets::reconstruction(
        coding.picture(settings),
        coding.considered(settings),
        settings.options,
    )
}

/// A decoder with the usual limits takes the packet of the next frame.
pub open spec fn next_admitted(coding: Coding, settings: Settings) -> bool {
    packets::admitted(
        coding.picture(settings),
        coding.considered(settings),
        settings.options,
        laws::usual(),
    )
}

/// A frame is shown as its encoder reconstructed it.
pub proof fn lemma_next_shown(coding: Coding, settings: Settings)
    requires
        followed(coding),
        coding.error(settings) is None,
        next_admitted(coding, settings),
    ensures
        decode::shown_frame(
            Backend::Production,
            coding.payload(settings),
            coding.references,
        ) == Ok::<(u64, Picture), MediaError>((coding.frame_index, next_shown(coding, settings))),
        followed(coding.next(settings)),
        coding.next(settings).references == history::extended(
            coding.references,
            coding.frame_index,
            next_shown(coding, settings),
        ),
        settings.options.qstep == 1 ==> next_shown(coding, settings) == coding.picture(settings),
{
    reveal(decode::shown_frame);
    assert(!history::remembers(coding.references, coding.frame_index));
    history::law_encoder_decoder_agree(
        coding.frame_index,
        coding.picture(settings),
        coding.references,
        settings.options,
        67_108_864,
        laws::usual(),
    );
}

// ---------------------------------------------------------------------------------------------
// Epochs

/// Lists one after the other, and one more.
pub proof fn lemma_joined_push(
    lists: Seq<Seq<syntax::PacketModel>>,
    list: Seq<syntax::PacketModel>,
    k: int,
)
    requires
        0 <= k <= lists.len(),
    ensures
        laws::joined(lists.push(list), k) == laws::joined(lists, k) + list,
    decreases lists.len() - k,
{
    let longer = lists.push(list);
    if k < lists.len() {
        lemma_joined_push(lists, list, k + 1);
        assert(longer[k] == lists[k]);
        assert(lists[k] + (laws::joined(lists, k + 1) + list) =~= (lists[k] + laws::joined(
            lists,
            k + 1,
        )) + list);
    } else {
        assert(longer[k] == list);
        assert(laws::joined(longer, k + 1) =~= Seq::empty());
        assert(list + Seq::<syntax::PacketModel>::empty() =~= list);
        assert(Seq::<syntax::PacketModel>::empty() + list =~= list);
    }
}

/// The epochs of an encoder hold these packets, which show some pictures, and the frames that wait
/// show others.
pub open spec fn holds(
    m: VideoModel,
    lists: Seq<Seq<syntax::PacketModel>>,
    done: Seq<Picture>,
    waiting: Seq<Picture>,
) -> bool {
    &&& followed(m.coding)
    &&& laws::epochs_hold(m.epochs, lists)
    &&& forall|k: int| 0 <= k < lists.len() ==> laws::frameable(#[trigger] lists[k])
    &&& decode::shown_frames(Backend::Production, laws::joined(lists, 0), Seq::empty()) == Ok::<
        Seq<Picture>,
        MediaError,
    >(done)
    &&& epoch::all_kind(m.pending, PacketKind::VideoFrame)
    &&& forall|i: int| 0 <= i < m.pending.len() ==> (#[trigger] m.pending[i]).flags == 0
    &&& decode::shown_frames(Backend::Production, m.pending, Seq::empty()) == Ok::<
        Seq<Picture>,
        MediaError,
    >(waiting)
    &&& later(m.pending, Seq::empty()) == m.coding.references
}

/// An encoder whose file, once it is finished, shows these pictures.
pub open spec fn keeps(m: VideoModel, shown: Seq<Picture>) -> bool {
    exists|lists: Seq<Seq<syntax::PacketModel>>, done: Seq<Picture>, waiting: Seq<Picture>| #[trigger]
        holds(m, lists, done, waiting) && shown == done + waiting
}

/// Closing an epoch moves the frames that wait into it.
proof fn lemma_closed_holds(
    m: VideoModel,
    settings: Settings,
    lists: Seq<Seq<syntax::PacketModel>>,
    done: Seq<Picture>,
    waiting: Seq<Picture>,
) -> (after: (Seq<Seq<syntax::PacketModel>>, Seq<Picture>))
    requires
        holds(m, lists, done, waiting),
        m.close_error(settings) is None,
    ensures
        holds(m.closed(settings), after.0, after.1, Seq::empty()),
        after.1 == done + waiting,
{
    let closed = m.closed(settings);
    let none = Seq::<syntax::PacketModel>::empty();
    if m.pending.len() == 0 {
        assert(m.pending =~= none);
        assert(done + waiting =~= done);
        (lists, done)
    } else {
        let (pts, duration) = m.span(settings)->Ok_0;
        let head = epoch::start_packet(m.epoch_id, pts, duration);
        crate::bytes::lemma_le_bytes_len(m.epoch_id as int, 4);
        assert(epoch::interleaved(m.pending, none) == m.pending);
        laws::lemma_list(Backend::Production, head, m.pending, none, waiting);
        let list = seq![head] + m.pending;
        let longer = lists.push(list);
        let range = m.epoch(settings)->Ok_0;
        assert(closed.epochs == m.epochs.push(range));
        assert forall|k: int| 0 <= k < closed.epochs.len() implies (#[trigger] closed.epochs[k]).bytes
            == epoch::framed(longer[k]) by {
            if k < m.epochs.len() {
                assert(closed.epochs[k] == m.epochs[k]);
                assert(longer[k] == lists[k]);
            }
        }
        assert forall|k: int| 0 <= k < longer.len() implies laws::frameable(#[trigger] longer[k]) by {
            if k < lists.len() {
                assert(longer[k] == lists[k]);
            }
        }
        lemma_joined_push(lists, list, 0);
        laws::lemma_shown_apart(
            Backend::Production,
            laws::joined(lists, 0),
            list,
            Seq::empty(),
        );
        assert(list[0] == head);
        (longer, done + waiting)
    }
}

/// An encoder that was handed nothing keeps nothing.
pub proof fn law_start_keeps(settings: Settings)
    ensures
        keeps(VideoModel::start(settings), Seq::empty()),
{
    let m = VideoModel::start(settings);
    let lists = Seq::<Seq<syntax::PacketModel>>::empty();
    let none = Seq::<Picture>::empty();
    assert(laws::joined(lists, 0) =~= Seq::empty());
    assert(holds(m, lists, none, none));
    assert(none + none =~= none);
}

/// An encoder keeps what it is handed: after a frame that is taken, it keeps one picture more, the
/// frame as it was reconstructed. Without loss that is the frame itself.
pub proof fn law_push_keeps(m: VideoModel, settings: Settings, shown: Seq<Picture>)
    requires
        keeps(m, shown),
        m.push_error(settings) is None,
        next_admitted(m.ready(settings)->Ok_0.coding, settings),
    ensures
        ({
            let coding = m.ready(settings)->Ok_0.coding;
            &&& keeps(m.pushed(settings), shown.push(next_shown(coding, settings)))
            &&& coding.input == m.coding.input
            &&& settings.options.qstep == 1 ==> next_shown(coding, settings) == m.coding.picture(
                settings,
            )
        }),
{
    let (lists, done, waiting) = choose|
        lists: Seq<Seq<syntax::PacketModel>>,
        done: Seq<Picture>,
        waiting: Seq<Picture>,
    | #[trigger]
        holds(m, lists, done, waiting) && shown == done + waiting;
    let open = m.ready(settings)->Ok_0;
    if m.full(settings) {
        let (longer, all) = lemma_closed_holds(m, settings, lists, done, waiting);
        assert(open == m.closed(settings));
        lemma_pushed_holds(m, open, settings, longer, all, Seq::empty());
        assert(all + Seq::<Picture>::empty().push(next_shown(open.coding, settings)) =~= shown.push(
            next_shown(open.coding, settings),
        ));
    } else {
        lemma_pushed_holds(m, open, settings, lists, done, waiting);
        assert(done + waiting.push(next_shown(open.coding, settings)) =~= shown.push(
            next_shown(open.coding, settings),
        ));
    }
}

proof fn lemma_pushed_holds(
    m: VideoModel,
    open: VideoModel,
    settings: Settings,
    lists: Seq<Seq<syntax::PacketModel>>,
    done: Seq<Picture>,
    waiting: Seq<Picture>,
)
    requires
        m.ready(settings) == Ok::<VideoModel, crate::mux::MuxError>(open),
        holds(open, lists, done, waiting),
        open.coding.error(settings) is None,
        next_admitted(open.coding, settings),
    ensures
        holds(
            m.pushed(settings),
            lists,
            done,
            waiting.push(next_shown(open.coding, settings)),
        ),
        open.coding.input == m.coding.input,
        settings.options.qstep == 1 ==> next_shown(open.coding, settings) == m.coding.picture(
            settings,
        ),
{
    lemma_next_shown(open.coding, settings);
    let p = epoch::video_packet(
        (open.coding.frame_index * settings.frame_us) as u64,
        settings.frame_us as u32,
        open.coding.payload(settings),
    );
    lemma_one_more(
        open.pending,
        Seq::empty(),
        p,
        open.coding.frame_index,
        next_shown(open.coding, settings),
    );
    let after = m.pushed(settings);
    assert(after.pending == open.pending.push(p));
}

/// The file of an encoder shows what the encoder keeps.
pub proof fn law_finished_read_back(m: VideoModel, settings: Settings, shown: Seq<Picture>)
    requires
        keeps(m, shown),
        settings.audio is None,
        settings.wf(),
        m.file(settings) is Ok,
        syntax::file_base(1, m.closed(settings).epochs.len() as int) <= u32::MAX,
    ensures
        decode::file_clip(Backend::Production, m.file(settings)->Ok_0) == Ok::<
            ClipModel,
            MediaError,
        >(decode::clip_of(settings.stream_list()[0], shown)),
{
    let (lists, done, waiting) = choose|
        lists: Seq<Seq<syntax::PacketModel>>,
        done: Seq<Picture>,
        waiting: Seq<Picture>,
    | #[trigger]
        holds(m, lists, done, waiting) && shown == done + waiting;
    let (longer, all) = lemma_closed_holds(m, settings, lists, done, waiting);
    let closed = m.closed(settings);
    let streams: Seq<StreamDesc> = settings.stream_list();
    assert forall|k: int, i: int|
        0 <= k < longer.len() && 0 <= i < longer[k].len() implies (#[trigger] longer[k][i]).flags == 0
        && longer[k][i].payload.len() <= u32::MAX by {
        assert(laws::frameable(longer[k]));
    }
    laws::law_file_packets(streams, closed.epochs, longer);
    laws::lemma_clip_of(
        syntax::file_bytes(streams, closed.epochs),
        streams,
        syntax::file_base(1, closed.epochs.len() as int),
        shown,
    );
}

} // verus!
