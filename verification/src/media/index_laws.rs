//! What the index of a finished file says of the frames that were handed in.
use crate::container::v1::syntax;
use crate::container::v1::{
    ContainerError, EpochIndex, FileHeader, PacketKind, StreamDesc, StreamKind,
};
use crate::media::av_laws;
use crate::media::decode;
use crate::media::laws;
use crate::mux::av;
use crate::mux::av::{AvEncoderState, AvModel};
use crate::mux::epoch;
use crate::mux::Settings;
use vstd::prelude::*;

verus! {

/// Video packets of one stream, one for each frame, at the times of the frames.
pub open spec fn orderly(m: AvModel, settings: Settings) -> bool {
    &&& m.video.len() == m.coding.frame_index
    &&& forall|i: int|
        0 <= i < m.video.len() ==> {
            let p = #[trigger] m.video[i];
            &&& p.kind == PacketKind::VideoFrame
            &&& p.flags == 0
            &&& p.stream_id == 1
            &&& p.pts == i * settings.frame_us
        }
}

/// An encoder keeps its packets in the order in which the frames were handed in.
pub proof fn law_encoder_orderly(encoder: AvEncoderState)
    requires
        encoder.wf(),
    ensures
        orderly(encoder.model(), encoder.video.settings),
{
    let m = encoder.model();
    assert forall|i: int| 0 <= i < m.video.len() implies {
        let p = #[trigger] m.video[i];
        &&& p.kind == PacketKind::VideoFrame
        &&& p.flags == 0
        &&& p.stream_id == 1
        &&& p.pts == i * encoder.video.settings.frame_us
    } by {
        assert(m.video[i] == encoder.encoded_video@[i].model());
    }
}

/// Where epoch `k` starts, or the clip ends.
pub open spec fn edge(m: AvModel, settings: Settings, k: int) -> int {
    av::at_most(k * settings.epoch_frames, m.video.len() as int)
}

/// The packets of epoch `k`: its start, and the frames and samples that belong to it.
#[verifier::opaque]
pub open spec fn epoch_list(m: AvModel, settings: Settings, k: int) -> Seq<syntax::PacketModel> {
    let (from, to) = (edge(m, settings, k), edge(m, settings, k + 1));
    seq![
        epoch::start_packet(
            k as u32,
            (from * settings.frame_us) as u64,
            (to * settings.frame_us - from * settings.frame_us) as u32,
        ),
    ] + epoch::interleaved(
        m.video.subrange(from, to),
        av_laws::epoch_sound(m.samples, settings, m.video.len() as int, k)->Ok_0,
    )
}

/// Epoch `k` of an encoder is this one.
#[verifier::opaque]
pub open spec fn epoch_as(
    m: AvModel,
    settings: Settings,
    range: syntax::EpochRange,
    k: int,
) -> bool {
    let list = epoch_list(m, settings, k);
    &&& range.id == k
    &&& range.pts == k * settings.epoch_frames * settings.frame_us
    &&& range.bytes == epoch::framed(list)
    &&& laws::frameable(list)
    &&& list.filter(laws::is_video()) == m.video.subrange(
        edge(m, settings, k),
        edge(m, settings, k + 1),
    )
}

/// An epoch of an encoder is the one of its number.
proof fn lemma_range(m: AvModel, settings: Settings, k: int)
    requires
        settings.wf(),
        orderly(m, settings),
        0 <= k,
        0 <= k * settings.epoch_frames < m.video.len(),
        m.epoch(settings, k * settings.epoch_frames, k) is Ok,
    ensures
        epoch_as(m, settings, m.epoch(settings, k * settings.epoch_frames, k)->Ok_0, k),
{
    let size = settings.epoch_frames as int;
    let frames = m.video.len() as int;
    let (from, to) = (edge(m, settings, k), edge(m, settings, k + 1));
    assert((k + 1) * size == k * size + size) by (nonlinear_arith);
    let us = settings.frame_us as int;
    assert(0 <= from * us <= to * us) by (nonlinear_arith)
        requires
            0 <= from <= to,
            0 <= us,
    ;
    av_laws::lemma_av_epoch(m, settings, k * size, k);
    let range = m.epoch(settings, k * size, k)->Ok_0;
    let head = epoch::start_packet(range.id, range.pts, range.duration);
    reveal(epoch_list);
    assert(head == epoch_list(m, settings, k)[0]) by {
        reveal(AvModel::epoch);
    }
    assert(range.id == k && range.pts == from * us) by {
        reveal(AvModel::epoch);
    }
    let video = m.video.subrange(from, to);
    let audio = av_laws::epoch_sound(m.samples, settings, frames, k)->Ok_0;
    assert forall|i: int| 0 <= i < video.len() implies (#[trigger] video[i]).kind
        == PacketKind::VideoFrame && video[i].flags == 0 by {
        assert(video[i] == m.video[from + i]);
    }
    if let Some(track) = settings.audio {
        laws::lemma_audio_plain(
            crate::media::Backend::Production,
            m.samples,
            av_laws::heard_frames(m.samples, settings, frames, k),
            av_laws::heard_frames(m.samples, settings, frames, k + 1),
            track.options(),
        );
    }
    lemma_epoch_list(head, video, audio);
    reveal(epoch_as);
    crate::bytes::lemma_le_bytes_len(range.id as int, 4);
}

/// A start, and video and audio packets by time.
proof fn lemma_epoch_list(
    head: syntax::PacketModel,
    video: Seq<syntax::PacketModel>,
    audio: Seq<syntax::PacketModel>,
)
    requires
        head.kind == PacketKind::EpochStart,
        epoch::all_kind(video, PacketKind::VideoFrame),
        epoch::all_kind(audio, PacketKind::AudioFrame),
        forall|i: int| 0 <= i < video.len() ==> (#[trigger] video[i]).flags == 0,
        forall|i: int| 0 <= i < audio.len() ==> (#[trigger] audio[i]).flags == 0,
    ensures
        ({
            let inner = epoch::interleaved(video, audio);
            let list = seq![head] + inner;
            &&& epoch::framed(list) == syntax::packet_bytes(head) + epoch::framed(inner)
            &&& list.filter(laws::is_video()) == video
            &&& head.flags == 0 && head.payload.len() <= u32::MAX && epoch::payloads_fit(inner)
                ==> laws::frameable(list)
        }),
{
    let inner = epoch::interleaved(video, audio);
    let list = seq![head] + inner;
    laws::lemma_interleaved_video(video, audio);
    epoch::lemma_interleaved_flags(video, audio);
    assert(list.drop_first() =~= inner);
    epoch::lemma_framed_split(list);
    Seq::filter_distributes_over_add(seq![head], inner, laws::is_video());
    laws::lemma_filter_one(head);
    assert(Seq::<syntax::PacketModel>::empty() + video =~= video);
    if head.flags == 0 && head.payload.len() <= u32::MAX && epoch::payloads_fit(inner) {
        assert forall|i: int| 0 <= i < list.len() implies (#[trigger] list[i]).flags == 0
            && list[i].payload.len() <= u32::MAX by {
            if i > 0 {
                assert(list[i] == inner[i - 1]);
            }
        }
    }
}

/// The epochs from `k` on.
proof fn lemma_ranges(m: AvModel, settings: Settings, k: int)
    requires
        settings.wf(),
        orderly(m, settings),
        0 <= k,
        m.epochs(settings, k * settings.epoch_frames, k) is Ok,
    ensures
        ({
            let list = m.epochs(settings, k * settings.epoch_frames, k)->Ok_0;
            let n = list.len() as int;
            &&& m.video.len() <= (k + n) * settings.epoch_frames
            &&& n > 0 ==> (k + n - 1) * settings.epoch_frames < m.video.len()
            &&& forall|j: int| 0 <= j < n ==> epoch_as(m, settings, #[trigger] list[j], k + j)
        }),
    decreases m.video.len() - edge(m, settings, k),
{
    let size = settings.epoch_frames as int;
    let start = k * size;
    assert(0 <= k * size) by (nonlinear_arith)
        requires
            0 <= k,
            0 <= size,
    ;
    assert((k + 1) * size == k * size + size) by (nonlinear_arith);
    if start < m.video.len() {
        lemma_range(m, settings, k);
        lemma_ranges(m, settings, k + 1);
        let list = m.epochs(settings, start, k)->Ok_0;
        let rest = m.epochs(settings, start + size, k + 1)->Ok_0;
        assert forall|j: int| 0 <= j < list.len() implies epoch_as(
            m,
            settings,
            #[trigger] list[j],
            k + j,
        ) by {
            if j > 0 {
                assert(list[j] == rest[j - 1]);
                assert(epoch_as(m, settings, rest[j - 1], k + 1 + (j - 1)));
            }
        }
    }
}

/// The frames of the first `k` epochs are the first of the clip.
proof fn lemma_frames_joined(
    m: AvModel,
    settings: Settings,
    lists: Seq<Seq<syntax::PacketModel>>,
    k: int,
)
    requires
        settings.wf(),
        0 <= k <= lists.len(),
        m.video.len() <= lists.len() * settings.epoch_frames,
        forall|j: int|
            0 <= j < lists.len() ==> (#[trigger] lists[j]).filter(laws::is_video())
                == m.video.subrange(edge(m, settings, j), edge(m, settings, j + 1)),
    ensures
        laws::joined(lists, k).filter(laws::is_video()) == m.video.skip(edge(m, settings, k)),
    decreases lists.len() - k,
{
    let size = settings.epoch_frames as int;
    assert(0 <= k * size <= (k + 1) * size) by (nonlinear_arith)
        requires
            0 <= k,
            0 <= size,
    ;
    if k < lists.len() {
        lemma_frames_joined(m, settings, lists, k + 1);
        let rest = laws::joined(lists, k + 1);
        Seq::filter_distributes_over_add(lists[k], rest, laws::is_video());
        let (from, to) = (edge(m, settings, k), edge(m, settings, k + 1));
        assert(m.video.subrange(from, to) + m.video.skip(to) =~= m.video.skip(from));
    } else {
        reveal(Seq::filter);
        assert(m.video.skip(m.video.len() as int) =~= Seq::empty());
    }
}

/// The packets of the first `n` epochs.
pub open spec fn epoch_lists(m: AvModel, settings: Settings, n: int) -> Seq<
    Seq<syntax::PacketModel>,
> {
    Seq::new(n as nat, |k: int| epoch_list(m, settings, k))
}

/// What the epoch of a number holds.
proof fn lemma_as(m: AvModel, settings: Settings, range: syntax::EpochRange, k: int)
    requires
        epoch_as(m, settings, range, k),
    ensures
        range.bytes == epoch::framed(epoch_list(m, settings, k)),
        laws::frameable(epoch_list(m, settings, k)),
        epoch_list(m, settings, k).filter(laws::is_video()) == m.video.subrange(
            edge(m, settings, k),
            edge(m, settings, k + 1),
        ),
{
    reveal(epoch_as);
}

/// What epochs hold, when each is the one of its number.
proof fn lemma_lists(m: AvModel, settings: Settings, epochs: Seq<syntax::EpochRange>)
    requires
        settings.wf(),
        m.video.len() <= epochs.len() * settings.epoch_frames,
        forall|j: int|
            0 <= j < epochs.len() ==> epoch_as(m, settings, #[trigger] epochs[j], 0 + j),
    ensures
        ({
            let lists = epoch_lists(m, settings, epochs.len() as int);
            &&& laws::epochs_hold(epochs, lists)
            &&& forall|k: int| 0 <= k < lists.len() ==> laws::frameable(#[trigger] lists[k])
            &&& laws::joined(lists, 0).filter(laws::is_video()) == m.video
        }),
{
    let lists = epoch_lists(m, settings, epochs.len() as int);
    assert forall|k: int| 0 <= k < lists.len() implies (#[trigger] lists[k]).filter(
        laws::is_video(),
    ) == m.video.subrange(edge(m, settings, k), edge(m, settings, k + 1)) && laws::frameable(
        lists[k],
    ) && epochs[k].bytes == epoch::framed(lists[k]) by {
        assert(epoch_as(m, settings, epochs[k], 0 + k));
        lemma_as(m, settings, epochs[k], k);
    }
    assert forall|k: int| 0 <= k < epochs.len() implies (#[trigger] epochs[k]).bytes
        == epoch::framed(lists[k]) by {
        assert(lists[k].len() >= 0);
    }
    let size = settings.epoch_frames as int;
    assert(0 * size == 0) by (nonlinear_arith);
    lemma_frames_joined(m, settings, lists, 0);
    assert(m.video.skip(0) =~= m.video);
}

/// How many epochs so many frames take.
proof fn lemma_count(frames: int, size: int, n: int)
    requires
        0 < size,
        0 < frames,
        frames <= n * size,
        n > 0 ==> (n - 1) * size < frames,
        0 <= n,
    ensures
        n > 0,
        n == (frames + size - 1) / size,
{
    assert(n > 0) by {
        if n == 0 {
            assert(n * size == 0) by (nonlinear_arith)
                requires
                    n == 0,
            ;
        }
    }
    assert((n - 1) * size == n * size - size) by (nonlinear_arith);
    let r = frames + size - 1 - n * size;
    vstd::arithmetic::div_mod::lemma_fundamental_div_mod_converse(frames + size - 1, size, n, r);
}

/// An index that lists the epochs of an encoder: numbered from zero, each at the time of its first
/// frame, one behind the other from `start` to the end of the file.
#[verifier::opaque]
pub open spec fn indexed(
    m: AvModel,
    settings: Settings,
    file: Seq<u8>,
    index: Seq<EpochIndex>,
    start: int,
) -> bool {
    let n = index.len() as int;
    &&& n > 0
    &&& forall|i: int|
        0 <= i < n ==> {
            let e = #[trigger] index[i];
            &&& e.id == i
            &&& e.pts == i * settings.epoch_frames * settings.frame_us
            &&& file.subrange(e.offset as int, e.offset + e.len) == epoch::framed(
                epoch_list(m, settings, i),
            )
        }
    &&& index[0].offset == start
    &&& forall|i: int, j: int|
        0 <= i < n && 0 <= j < n && j == i + 1 ==> (#[trigger] index[j]).offset == (
        #[trigger] index[i]).offset + index[i].len
    &&& index[n - 1].offset + index[n - 1].len == file.len()
}

/// An index whose entries stand for these epochs.
#[verifier::opaque]
spec fn stands_for(
    epochs: Seq<syntax::EpochRange>,
    file: Seq<u8>,
    index: Seq<EpochIndex>,
    start: int,
) -> bool {
    &&& index.len() == epochs.len()
    &&& file.len() == start + syntax::payload_before(epochs, epochs.len() as int).len()
    &&& forall|k: int|
        0 <= k < epochs.len() ==> {
            let e = #[trigger] index[k];
            &&& e.id == epochs[k].id
            &&& e.pts == epochs[k].pts
            &&& e.len == epochs[k].bytes.len()
            &&& e.offset == start + syntax::payload_before(epochs, k).len()
            &&& file.subrange(e.offset as int, e.offset + e.len) == epochs[k].bytes
        }
}

/// The index of a file stands for the epochs.
#[verifier::spinoff_prover]
proof fn lemma_stands(streams: Seq<StreamDesc>, epochs: Seq<syntax::EpochRange>)
    requires
        syntax::build_error(streams, epochs) is None,
        syntax::file_len(streams, epochs) <= usize::MAX,
        syntax::file_base(streams.len() as int, epochs.len() as int) <= u32::MAX,
        forall|i: int| 0 <= i < streams.len() ==> syntax::stream_ok(#[trigger] streams[i]),
    ensures
        syntax::decoded_prefix(syntax::file_bytes(streams, epochs)) == Ok::<
            (FileHeader, syntax::FrontModel, int),
            ContainerError,
        >(
            (
                syntax::file_header(streams, epochs),
                syntax::file_front(streams, epochs),
                syntax::file_base(streams.len() as int, epochs.len() as int),
            ),
        ),
        stands_for(
            epochs,
            syntax::file_bytes(streams, epochs),
            syntax::file_front(streams, epochs).epochs,
            syntax::file_base(streams.len() as int, epochs.len() as int),
        ),
{
    let n = epochs.len() as int;
    let index = syntax::file_front(streams, epochs).epochs;
    syntax::law_checked_ids(epochs);
    syntax::law_file_write_read(streams, epochs);
    assert forall|k: int| 0 <= k < n implies (#[trigger] index[k]).len == epochs[k].bytes.len() by {
        syntax::lemma_payload_before(epochs, k + 1, n);
        assert(syntax::payload_before(epochs, k + 1) == syntax::payload_before(epochs, k)
            + epochs[k].bytes);
    }
    reveal(stands_for);
}

/// Where the epochs of an encoder lie.
proof fn lemma_indexed(
    m: AvModel,
    settings: Settings,
    epochs: Seq<syntax::EpochRange>,
    file: Seq<u8>,
    index: Seq<EpochIndex>,
    start: int,
)
    requires
        epochs.len() > 0,
        stands_for(epochs, file, index, start),
        forall|j: int|
            0 <= j < epochs.len() ==> epoch_as(m, settings, #[trigger] epochs[j], 0 + j),
    ensures
        indexed(m, settings, file, index, start),
{
    reveal(stands_for);
    let n = epochs.len() as int;
    assert forall|i: int| 0 <= i < n implies {
        let e = #[trigger] index[i];
        &&& e.id == i
        &&& e.pts == i * settings.epoch_frames * settings.frame_us
        &&& file.subrange(e.offset as int, e.offset + e.len) == epoch::framed(
            epoch_list(m, settings, i),
        )
    } by {
        assert(epoch_as(m, settings, epochs[i], 0 + i));
        reveal(epoch_as);
    }
    assert forall|i: int, j: int| 0 <= i < n && 0 <= j < n && j == i + 1 implies (
    #[trigger] index[j]).offset == (#[trigger] index[i]).offset + index[i].len by {
        assert(syntax::payload_before(epochs, j) == syntax::payload_before(epochs, i)
            + epochs[i].bytes);
    }
    assert(syntax::payload_before(epochs, n) == syntax::payload_before(epochs, n - 1) + epochs[n
        - 1].bytes);
    assert(index[0].id == 0 && index[n - 1].id == n - 1);
    reveal(indexed);
}

/// All epochs of an encoder.
proof fn lemma_all_ranges(m: AvModel, settings: Settings)
    requires
        settings.wf(),
        orderly(m, settings),
        m.video.len() > 0,
        m.epochs(settings, 0, 0) is Ok,
    ensures
        ({
            let epochs = m.epochs(settings, 0, 0)->Ok_0;
            &&& epochs.len() > 0
            &&& epochs.len() == (m.video.len() + settings.epoch_frames - 1)
                / settings.epoch_frames as int
            &&& m.video.len() <= epochs.len() * settings.epoch_frames
            &&& forall|j: int|
                0 <= j < epochs.len() ==> epoch_as(m, settings, #[trigger] epochs[j], 0 + j)
        }),
{
    let size = settings.epoch_frames as int;
    assert(0 * size == 0) by (nonlinear_arith);
    lemma_ranges(m, settings, 0);
    lemma_count(m.video.len() as int, size, m.epochs(settings, 0, 0)->Ok_0.len() as int);
}

/// A file that tells of so many epochs of an encoder, and holds the packets of its frames.
#[verifier::opaque]
pub open spec fn told(m: AvModel, settings: Settings, file: Seq<u8>, n: int) -> bool {
    &&& syntax::decoded_prefix(file) matches Ok((header, front, start)) && {
        &&& front.streams == settings.stream_list()
        &&& front.streams[0].id == 1
        &&& front.streams[0].kind == StreamKind::Video
        &&& settings.audio is None ==> front.streams.len() == 1
        &&& front.epochs.len() == n
        &&& indexed(m, settings, file, front.epochs, start)
        &&& decode::scanned(file, start).1 is None
        &&& decode::scanned(file, start).0.filter(laws::is_video()) == m.video
    }
}

/// The packets in a file of an encoder's epochs.
#[verifier::spinoff_prover]
proof fn lemma_packets(m: AvModel, settings: Settings, epochs: Seq<syntax::EpochRange>)
    requires
        settings.wf(),
        epochs.len() > 0,
        m.video.len() <= epochs.len() * settings.epoch_frames,
        forall|j: int|
            0 <= j < epochs.len() ==> epoch_as(m, settings, #[trigger] epochs[j], 0 + j),
        syntax::build_error(settings.stream_list(), epochs) is None,
        syntax::file_len(settings.stream_list(), epochs) <= usize::MAX,
        syntax::file_base(settings.stream_list().len() as int, epochs.len() as int) <= u32::MAX,
    ensures
        ({
            let streams = settings.stream_list();
            let found = decode::scanned(
                syntax::file_bytes(streams, epochs),
                syntax::file_base(streams.len() as int, epochs.len() as int),
            );
            found.1 is None && found.0.filter(laws::is_video()) == m.video
        }),
{
    let lists = epoch_lists(m, settings, epochs.len() as int);
    av_laws::lemma_streams_plain(settings);
    lemma_lists(m, settings, epochs);
    av_laws::lemma_lists_plain(lists);
    laws::law_file_packets(settings.stream_list(), epochs, lists);
}

/// A file with such an index and such packets tells of the epochs.
proof fn lemma_tells(
    m: AvModel,
    settings: Settings,
    file: Seq<u8>,
    header: FileHeader,
    front: syntax::FrontModel,
    start: int,
)
    requires
        syntax::decoded_prefix(file) == Ok::<(FileHeader, syntax::FrontModel, int), ContainerError>(
            (header, front, start),
        ),
        front.streams == settings.stream_list(),
        indexed(m, settings, file, front.epochs, start),
        decode::scanned(file, start).1 is None,
        decode::scanned(file, start).0.filter(laws::is_video()) == m.video,
    ensures
        told(m, settings, file, front.epochs.len() as int),
{
    reveal(told);
}

/// What a file of an encoder's epochs holds.
#[verifier::spinoff_prover]
proof fn lemma_told(m: AvModel, settings: Settings, epochs: Seq<syntax::EpochRange>)
    requires
        settings.wf(),
        epochs.len() > 0,
        m.video.len() <= epochs.len() * settings.epoch_frames,
        forall|j: int|
            0 <= j < epochs.len() ==> epoch_as(m, settings, #[trigger] epochs[j], 0 + j),
        syntax::build_error(settings.stream_list(), epochs) is None,
        syntax::file_len(settings.stream_list(), epochs) <= usize::MAX,
        syntax::file_base(settings.stream_list().len() as int, epochs.len() as int) <= u32::MAX,
    ensures
        told(m, settings, syntax::file_bytes(settings.stream_list(), epochs), epochs.len() as int),
{
    let streams = settings.stream_list();
    let file = syntax::file_bytes(streams, epochs);
    let front = syntax::file_front(streams, epochs);
    let start = syntax::file_base(streams.len() as int, epochs.len() as int);
    lemma_packets(m, settings, epochs);
    av_laws::lemma_streams_plain(settings);
    lemma_stands(streams, epochs);
    lemma_indexed(m, settings, epochs, file, front.epochs, start);
    lemma_tells(m, settings, file, syntax::file_header(streams, epochs), front, start);
}

/// The index of a finished file: the frames take as many epochs as they must, numbered from zero,
/// each at the time of its first frame; the epochs lie one behind the other from the end of the
/// front to the end of the file; and the video packets in them are those of the frames, in the
/// order in which these were handed in. Without audio the one stream is the video, of number one.
#[verifier::spinoff_prover]
pub proof fn law_av_index(m: AvModel, settings: Settings)
    requires
        settings.wf(),
        orderly(m, settings),
        m.file(settings) is Ok,
        syntax::file_base(
            settings.stream_list().len() as int,
            m.epochs(settings, 0, 0)->Ok_0.len() as int,
        ) <= u32::MAX,
    ensures
        told(
            m,
            settings,
            m.file(settings)->Ok_0,
            (m.video.len() + settings.epoch_frames - 1) / settings.epoch_frames as int,
        ),
{
    let epochs = m.epochs(settings, 0, 0)->Ok_0;
    lemma_all_ranges(m, settings);
    assert(m.file(settings)->Ok_0 == syntax::file_bytes(settings.stream_list(), epochs));
    lemma_told(m, settings, epochs);
}

/// The file that an encoder finishes with tells of all its epochs and holds the packets of all its
/// frames.
pub proof fn law_finished_index(encoder: AvEncoderState)
    requires
        encoder.wf(),
        encoder.model().file(encoder.video.settings) is Ok,
        syntax::file_base(
            encoder.video.settings.stream_list().len() as int,
            encoder.model().epochs(encoder.video.settings, 0, 0)->Ok_0.len() as int,
        ) <= u32::MAX,
    ensures
        ({
            let settings = encoder.video.settings;
            let frames = encoder.encoded_video@.len() as int;
            &&& frames > 0
            &&& told(
                encoder.model(),
                settings,
                encoder.model().file(settings)->Ok_0,
                (frames + settings.epoch_frames - 1) / settings.epoch_frames as int,
            )
        }),
{
    law_encoder_orderly(encoder);
    law_av_index(encoder.model(), encoder.video.settings);
}

} // verus!
