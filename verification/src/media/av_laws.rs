//! What an encoder writes of the frames and samples that it is handed can be read back.
use crate::container::v1::syntax;
use crate::container::v1::{PacketKind, StreamDesc, StreamKind};
use crate::media::decode;
use crate::media::encode;
use crate::media::handed_laws;
use crate::media::laws;
use crate::media::sound_laws;
use crate::media::{Backend, ClipModel, MediaError};
use crate::mux::assemble;
use crate::mux::av;
use crate::mux::av::AvModel;
use crate::mux::epoch;
use crate::mux::{AudioTrack, MuxError, Settings};
use crate::video::v1::history;
use crate::video::v1::syntax::Picture;
use vstd::prelude::*;

verus! {

// ---------------------------------------------------------------------------------------------
// Frames

/// Packets show pictures epoch by epoch, each epoch by itself.
pub open spec fn chunks(video: Seq<syntax::PacketModel>, shown: Seq<Picture>, size: int) -> bool
    decreases video.len(),
{
    if video.len() == 0 {
        shown.len() == 0
    } else {
        let n = av::at_most(size, video.len() as int);
        &&& size > 0
        &&& video.len() == shown.len()
        &&& decode::shown_frames(Backend::Production, video.take(n), Seq::empty()) == Ok::<
            Seq<Picture>,
            MediaError,
        >(shown.take(n))
        &&& chunks(video.skip(n), shown.skip(n), size)
    }
}

/// The references of a decoder after the last epoch.
pub open spec fn tail_references(video: Seq<syntax::PacketModel>, size: int) -> Seq<(u64, Picture)>
    decreases video.len(),
{
    if size <= 0 || video.len() <= size {
        handed_laws::later(video, Seq::empty())
    } else {
        tail_references(video.skip(size), size)
    }
}

/// What the next packet may be predicted from: nothing, where an epoch starts.
pub open spec fn open_references(video: Seq<syntax::PacketModel>, size: int) -> Seq<(u64, Picture)> {
    if video.len() as int % size == 0 {
        Seq::empty()
    } else {
        tail_references(video, size)
    }
}

/// Video packets, and no others.
pub open spec fn plain_video(list: Seq<syntax::PacketModel>) -> bool {
    forall|i: int|
        0 <= i < list.len() ==> (#[trigger] list[i]).kind == PacketKind::VideoFrame && list[i].flags
            == 0
}

/// One more packet shows one more picture, in the last epoch or in a new one.
pub proof fn lemma_chunks_push(
    video: Seq<syntax::PacketModel>,
    shown: Seq<Picture>,
    size: int,
    p: syntax::PacketModel,
    id: u64,
    picture: Picture,
)
    requires
        size > 0,
        plain_video(video),
        p.kind == PacketKind::VideoFrame,
        chunks(video, shown, size),
        decode::shown_frame(Backend::Production, p.payload, open_references(video, size)) == Ok::<
            (u64, Picture),
            MediaError,
        >((id, picture)),
    ensures
        chunks(video.push(p), shown.push(picture), size),
        tail_references(video.push(p), size) == history::extended(
            open_references(video, size),
            id,
            picture,
        ),
    decreases video.len(),
{
    let longer = video.push(p);
    let more = shown.push(picture);
    if video.len() < size {
        let n = longer.len() as int;
        if video.len() > 0 {
            assert(video.len() as int % size == video.len()) by (nonlinear_arith)
                requires
                    0 <= video.len() < size,
            ;
            assert(video.take(video.len() as int) =~= video);
            assert(shown.take(video.len() as int) =~= shown);
        } else {
            assert(video =~= Seq::empty());
            assert(shown =~= Seq::empty());
        }
        handed_laws::lemma_one_more(video, Seq::empty(), p, id, picture);
        assert(longer.take(n) =~= longer);
        assert(more.take(n) =~= more);
        assert(chunks(longer.skip(n), more.skip(n), size));
    } else {
        let (rest, left) = (video.skip(size), shown.skip(size));
        assert(longer.take(size) =~= video.take(size));
        assert(more.take(size) =~= shown.take(size));
        assert(longer.skip(size) =~= rest.push(p));
        assert(more.skip(size) =~= left.push(picture));
        vstd::arithmetic::div_mod::lemma_mod_sub_multiples_vanish(video.len() as int, size);
        assert(rest.len() as int % size == video.len() as int % size);
        if rest.len() == 0 {
            assert(0int % size == 0) by (nonlinear_arith)
                requires
                    size > 0,
            ;
        }
        lemma_chunks_push(rest, left, size, p, id, picture);
    }
}

// ---------------------------------------------------------------------------------------------
// Samples

/// The first sample frame that does not go with the first `k` epochs of so many frames.
pub open spec fn bound(settings: Settings, track: AudioTrack, frames: int, total: int, k: int) -> int {
    av::at_most(
        av::at_most(k * settings.epoch_frames, frames) * settings.frame_us * track.rate / 1_000_000,
        total,
    )
}

/// What a decoder makes of the samples of the first `k` epochs.
pub open spec fn pieces(
    samples: Seq<i16>,
    settings: Settings,
    track: AudioTrack,
    frames: int,
    k: int,
) -> Seq<i16>
    decreases k,
{
    if k <= 0 {
        Seq::empty()
    } else {
        let total = samples.len() as int / track.channels as int;
        pieces(samples, settings, track, frames, k - 1) + sound_laws::reheard(
            samples,
            bound(settings, track, frames, total, k - 1),
            bound(settings, track, frames, total, k),
            track.options(),
        )
    }
}

/// The audio packets of an encoder are those of the samples, wherever they are kept.
pub proof fn lemma_same_packets(
    samples: Seq<i16>,
    kept: Seq<i16>,
    base: int,
    from: int,
    end: int,
    track: AudioTrack,
)
    requires
        track.channels > 0,
        0 <= base <= from,
        kept == samples.skip(base * track.channels),
        end * track.channels <= samples.len(),
        epoch::audio_packets(kept, base, from, end, track) is Ok,
    ensures
        encode::coded_audio(Backend::Production, samples, from, end, track.options()) == Ok::<
            Seq<syntax::PacketModel>,
            MediaError,
        >(epoch::audio_packets(kept, base, from, end, track)->Ok_0),
    decreases end - from,
{
    let c = track.channels as int;
    if from < end {
        let n = epoch::packet_frames(from, end);
        lemma_same_packets(samples, kept, base, from + n, end, track);
        assert((from - base) * c == from * c - base * c) by (nonlinear_arith);
        assert((from - base + n) * c == (from + n) * c - base * c) by (nonlinear_arith);
        assert(0 <= base * c <= from * c <= (from + n) * c <= end * c) by (nonlinear_arith)
            requires
                0 <= base <= from,
                0 <= n,
                from + n <= end,
                0 < c,
        ;
        assert(epoch::slice(kept, base, from, n, c) =~= epoch::slice(samples, 0, from, n, c));
    }
}

/// Bounds come in order.
pub proof fn lemma_bounds(settings: Settings, track: AudioTrack, frames: int, total: int, k: int)
    requires
        0 <= k,
        0 <= frames,
        0 <= total,
    ensures
        0 <= bound(settings, track, frames, total, k) <= bound(
            settings,
            track,
            frames,
            total,
            k + 1,
        ) <= total,
        bound(settings, track, frames, total, 0) == 0,
{
    let (e, u, r) = (settings.epoch_frames as int, settings.frame_us as int, track.rate as int);
    assert(0 <= k * e <= (k + 1) * e) by (nonlinear_arith)
        requires
            0 <= k,
            0 <= e,
    ;
    let (a, b) = (av::at_most(k * e, frames), av::at_most((k + 1) * e, frames));
    assert(0 <= a * u * r <= b * u * r) by (nonlinear_arith)
        requires
            0 <= a <= b,
            0 <= u,
            0 <= r,
    ;
    vstd::arithmetic::div_mod::lemma_div_is_ordered(a * u * r, b * u * r, 1_000_000);
    assert(0 * e == 0 && 0 * u * r == 0) by (nonlinear_arith);
}

// ---------------------------------------------------------------------------------------------
// Epochs that were written

/// The format of what was heard, if anything was.
pub open spec fn format(track: AudioTrack, any: bool) -> (u32, u8) {
    if any {
        (track.rate, track.channels)
    } else {
        (0, 0)
    }
}

/// Epochs hold packets in which this is shown and heard.
pub open spec fn written(
    epochs: Seq<syntax::EpochRange>,
    lists: Seq<Seq<syntax::PacketModel>>,
    track: Option<AudioTrack>,
    shown: Seq<Picture>,
    heard: Seq<i16>,
    any: bool,
) -> bool {
    &&& laws::epochs_hold(epochs, lists)
    &&& forall|k: int| 0 <= k < lists.len() ==> laws::frameable(#[trigger] lists[k])
    &&& decode::shown_frames(Backend::Production, laws::joined(lists, 0), Seq::empty()) == Ok::<
        Seq<Picture>,
        MediaError,
    >(shown)
    &&& track matches Some(track) ==> decode::heard(
        Backend::Production,
        laws::joined(lists, 0),
        0,
        0,
    ) == Ok::<(u32, u8, Seq<i16>), MediaError>(
        (format(track, any).0, format(track, any).1, heard),
    )
}

/// What one more epoch adds to what is shown and heard.
pub proof fn lemma_written_push(
    epochs: Seq<syntax::EpochRange>,
    lists: Seq<Seq<syntax::PacketModel>>,
    track: Option<AudioTrack>,
    shown: Seq<Picture>,
    heard: Seq<i16>,
    any: bool,
    range: syntax::EpochRange,
    video: Seq<syntax::PacketModel>,
    audio: Seq<syntax::PacketModel>,
    pictures: Seq<Picture>,
    samples: Seq<i16>,
    some: bool,
) -> (longer: Seq<Seq<syntax::PacketModel>>)
    requires
        written(epochs, lists, track, shown, heard, any),
        epoch::epoch_bytes(range.id, range.pts, range.duration, video, audio) == Ok::<
            Seq<u8>,
            MuxError,
        >(range.bytes),
        plain_video(video),
        epoch::all_kind(audio, PacketKind::AudioFrame),
        forall|i: int| 0 <= i < audio.len() ==> (#[trigger] audio[i]).flags == 0,
        decode::shown_frames(Backend::Production, video, Seq::empty()) == Ok::<
            Seq<Picture>,
            MediaError,
        >(pictures),
        track matches Some(track) ==> decode::heard(
            Backend::Production,
            audio,
            format(track, any).0,
            format(track, any).1,
        ) == Ok::<(u32, u8, Seq<i16>), MediaError>(
            (format(track, some).0, format(track, some).1, samples),
        ),
    ensures
        written(epochs.push(range), longer, track, shown + pictures, heard + samples, some),
        longer == lists.push(
            seq![epoch::start_packet(range.id, range.pts, range.duration)] + epoch::interleaved(
                video,
                audio,
            ),
        ),
{
    let head = epoch::start_packet(range.id, range.pts, range.duration);
    crate::bytes::lemma_le_bytes_len(range.id as int, 4);
    laws::lemma_list(Backend::Production, head, video, audio, pictures);
    let list = seq![head] + epoch::interleaved(video, audio);
    let longer = lists.push(list);
    let all = epochs.push(range);
    assert forall|k: int| 0 <= k < all.len() implies (#[trigger] all[k]).bytes == epoch::framed(
        longer[k],
    ) by {
        if k < epochs.len() {
            assert(all[k] == epochs[k]);
            assert(longer[k] == lists[k]);
        }
    }
    assert forall|k: int| 0 <= k < longer.len() implies laws::frameable(#[trigger] longer[k]) by {
        if k < lists.len() {
            assert(longer[k] == lists[k]);
        }
    }
    handed_laws::lemma_joined_push(lists, list, 0);
    assert(list[0] == head);
    laws::lemma_shown_apart(Backend::Production, laws::joined(lists, 0), list, Seq::empty());
    if let Some(track) = track {
        let (r, c) = format(track, any);
        sound_laws::lemma_list(head, video, audio, r, c);
        sound_laws::lemma_heard_runs(laws::joined(lists, 0), list, 0, 0);
    }
    longer
}

/// Coded samples are heard as their encoder reconstructed them.
pub proof fn lemma_samples_heard(
    samples: Seq<i16>,
    from: int,
    end: int,
    track: AudioTrack,
    any: bool,
    some: bool,
)
    requires
        0 <= from <= end,
        end * track.channels <= samples.len(),
        encode::coded_audio(Backend::Production, samples, from, end, track.options()) is Ok,
        some == (any || from < end),
    ensures
        ({
            let list = encode::coded_audio(
                Backend::Production,
                samples,
                from,
                end,
                track.options(),
            )->Ok_0;
            &&& epoch::all_kind(list, PacketKind::AudioFrame)
            &&& forall|i: int| 0 <= i < list.len() ==> (#[trigger] list[i]).flags == 0
            &&& decode::heard(
                Backend::Production,
                list,
                format(track, any).0,
                format(track, any).1,
            ) == Ok::<(u32, u8, Seq<i16>), MediaError>(
                (
                    format(track, some).0,
                    format(track, some).1,
                    sound_laws::reheard(samples, from, end, track.options()),
                ),
            )
        }),
{
    let (r, c) = format(track, any);
    laws::lemma_audio_plain(Backend::Production, samples, from, end, track.options());
    sound_laws::lemma_run(samples, from, end, track.options(), r, c);
}

/// What is heard of the first `k` epochs.
pub open spec fn heard_of(samples: Seq<i16>, settings: Settings, frames: int, k: int) -> Seq<i16> {
    match settings.audio {
        None => Seq::empty(),
        Some(track) => pieces(samples, settings, track, frames, k),
    }
}

/// How many sample frames go with the first `k` epochs.
pub open spec fn heard_frames(samples: Seq<i16>, settings: Settings, frames: int, k: int) -> int {
    match settings.audio {
        None => 0,
        Some(track) => bound(
            settings,
            track,
            frames,
            samples.len() as int / track.channels as int,
            k,
        ),
    }
}

/// The audio packets of epoch `k`.
pub open spec fn epoch_sound(samples: Seq<i16>, settings: Settings, frames: int, k: int) -> Result<
    Seq<syntax::PacketModel>,
    MediaError,
> {
    match settings.audio {
        None => Ok(Seq::empty()),
        Some(track) => encode::coded_audio(
            Backend::Production,
            samples,
            heard_frames(samples, settings, frames, k),
            heard_frames(samples, settings, frames, k + 1),
            track.options(),
        ),
    }
}

/// Without loss what is heard is the samples.
pub open spec fn true_sound(samples: Seq<i16>, settings: Settings, frames: int, k: int) -> bool {
    settings.audio matches Some(track) ==> track.qstep == 1 ==> heard_of(
        samples,
        settings,
        frames,
        k,
    ) == samples.take(heard_frames(samples, settings, frames, k) * track.channels)
}

/// The samples of a bound are there.
pub proof fn lemma_frames_there(samples: Seq<i16>, channels: int, n: int)
    requires
        channels > 0,
        0 <= n <= samples.len() as int / channels,
    ensures
        0 <= n * channels <= samples.len(),
{
    let q = samples.len() as int / channels;
    vstd::arithmetic::div_mod::lemma_fundamental_div_mod(samples.len() as int, channels);
    assert(0 <= n * channels <= channels * q) by (nonlinear_arith)
        requires
            0 <= n <= q,
            channels > 0,
    ;
}

/// The samples of epoch `k` are heard after those before it.
pub proof fn lemma_sound_step(samples: Seq<i16>, settings: Settings, frames: int, k: int)
    requires
        settings.wf(),
        0 <= k,
        0 <= frames,
        epoch_sound(samples, settings, frames, k) is Ok,
        true_sound(samples, settings, frames, k),
    ensures
        ({
            let list = epoch_sound(samples, settings, frames, k)->Ok_0;
            let any = heard_frames(samples, settings, frames, k) > 0;
            let some = heard_frames(samples, settings, frames, k + 1) > 0;
            &&& epoch::all_kind(list, PacketKind::AudioFrame)
            &&& forall|i: int| 0 <= i < list.len() ==> (#[trigger] list[i]).flags == 0
            &&& settings.audio matches Some(track) ==> decode::heard(
                Backend::Production,
                list,
                format(track, any).0,
                format(track, any).1,
            ) == Ok::<(u32, u8, Seq<i16>), MediaError>(
                (
                    format(track, some).0,
                    format(track, some).1,
                    sound_laws::reheard(
                        samples,
                        heard_frames(samples, settings, frames, k),
                        heard_frames(samples, settings, frames, k + 1),
                        track.options(),
                    ),
                ),
            )
            &&& true_sound(samples, settings, frames, k + 1)
        }),
{
    if let Some(track) = settings.audio {
        let c = track.channels as int;
        let total = samples.len() as int / c;
        vstd::arithmetic::div_mod::lemma_div_pos_is_pos(samples.len() as int, c);
        lemma_bounds(settings, track, frames, total, k);
        let (from, end) = (
            bound(settings, track, frames, total, k),
            bound(settings, track, frames, total, k + 1),
        );
        lemma_frames_there(samples, c, from);
        lemma_frames_there(samples, c, end);
        lemma_samples_heard(samples, from, end, track, from > 0, end > 0);
        if track.qstep == 1 {
            sound_laws::lemma_run(samples, from, end, track.options(), 0, 0);
            assert(from * c <= end * c) by (nonlinear_arith)
                requires
                    from <= end,
                    0 < c,
            ;
            assert(samples.take(from * c) + samples.subrange(from * c, end * c) =~= samples.take(
                end * c,
            ));
        }
    }
}

// ---------------------------------------------------------------------------------------------
// Files that are written at the end

/// An encoder that was handed frames which are shown so.
pub open spec fn filled(m: AvModel, settings: Settings, shown: Seq<Picture>) -> bool {
    let size = settings.epoch_frames as int;
    &&& handed_laws::followed(m.coding)
    &&& m.video.len() == m.coding.frame_index
    &&& plain_video(m.video)
    &&& chunks(m.video, shown, size)
    &&& m.video.len() as int % size != 0 ==> m.coding.references == tail_references(m.video, size)
    &&& m.video.len() == 0 ==> m.coding.references == Seq::<(u64, Picture)>::empty()
}

/// An encoder that was handed nothing shows nothing.
pub proof fn law_av_start(settings: Settings)
    requires
        settings.wf(),
    ensures
        filled(AvModel::start(settings), settings, Seq::empty()),
{
    let size = settings.epoch_frames as int;
    assert(0int % size == 0) by (nonlinear_arith)
        requires
            size > 0,
    ;
}

/// A frame that is taken is shown as it was reconstructed, after those before it. Without loss
/// that is the frame itself.
pub proof fn law_av_push_keeps(m: AvModel, settings: Settings, shown: Seq<Picture>)
    requires
        settings.wf(),
        filled(m, settings, shown),
        m.push_error(settings) is None,
        handed_laws::next_admitted(m.ready(settings), settings),
    ensures
        ({
            let picture = handed_laws::next_shown(m.ready(settings), settings);
            &&& filled(m.pushed(settings), settings, shown.push(picture))
            &&& m.pushed(settings).samples == m.samples
            &&& settings.options.qstep == 1 ==> picture == m.coding.picture(settings)
        }),
{
    let ready = m.ready(settings);
    let size = settings.epoch_frames as int;
    let n = m.video.len() as int;
    if n == 0 {
        assert(0int % size == 0) by (nonlinear_arith)
            requires
                size > 0,
        ;
    }
    assert(ready.references == open_references(m.video, size));
    handed_laws::lemma_next_shown(ready, settings);
    let p = epoch::video_packet(
        (ready.frame_index * settings.frame_us) as u64,
        settings.frame_us as u32,
        ready.payload(settings),
    );
    lemma_chunks_push(
        m.video,
        shown,
        size,
        p,
        ready.frame_index,
        handed_laws::next_shown(ready, settings),
    );
}

/// The epoch of the frames from `start` on, which is epoch `k`.
pub proof fn lemma_av_epoch(m: AvModel, settings: Settings, start: int, k: int)
    requires
        settings.wf(),
        m.video.len() <= u64::MAX,
        0 <= k,
        start == k * settings.epoch_frames,
        0 <= start < m.video.len(),
        m.epoch(settings, start, k) is Ok,
    ensures
        ({
            let frames = m.video.len() as int;
            let end = av::at_most(start + settings.epoch_frames, frames);
            let range = m.epoch(settings, start, k)->Ok_0;
            &&& epoch_sound(m.samples, settings, frames, k) matches Ok(audio)
                && epoch::epoch_bytes(
                range.id,
                range.pts,
                range.duration,
                m.video.subrange(start, end),
                audio,
            ) == Ok::<Seq<u8>, MuxError>(range.bytes)
        }),
{
    reveal(AvModel::epoch);
    let frames = m.video.len() as int;
    let size = settings.epoch_frames as int;
    let end = av::at_most(start + size, frames);
    assert((k + 1) * size == k * size + size) by (nonlinear_arith);
    let us = settings.frame_us as int;
    assert(0 <= start * us <= end * us) by (nonlinear_arith)
        requires
            0 <= start <= end,
            0 <= us,
    ;
    let (pts, duration) = assemble::epoch_span(
        start as u64,
        end as u64,
        settings.frame_us,
    )->Ok_0;
    assert(pts == start * us && pts + duration == end * us);
    if let Some(track) = settings.audio {
        let c = track.channels as int;
        let total = m.samples.len() as int / c;
        vstd::arithmetic::div_mod::lemma_div_pos_is_pos(m.samples.len() as int, c);
        lemma_bounds(settings, track, frames, total, k);
        let (from, to) = (
            bound(settings, track, frames, total, k),
            bound(settings, track, frames, total, k + 1),
        );
        let (u, r) = (settings.frame_us as int, track.rate as int);
        assert(0 <= start * u * r && 0 <= end * u * r) by (nonlinear_arith)
            requires
                0 <= start,
                0 <= end,
                0 <= u,
                0 <= r,
        ;
        lemma_frames_there(m.samples, c, to);
        assert(m.epoch_audio(settings, pts as int, pts + duration) is Ok);
        assert(assemble::sample_at(pts as int, track.rate) == Ok::<u64, MuxError>(
            (start * u * r / 1_000_000) as u64,
        ));
        assert(assemble::sample_at(pts + duration, track.rate) == Ok::<u64, MuxError>(
            (end * u * r / 1_000_000) as u64,
        ));
        assert(m.samples.skip(0) =~= m.samples);
        assert(0 * c == 0) by (nonlinear_arith);
        lemma_same_packets(m.samples, m.samples, 0, from, to, track);
    }
}

/// From epoch `k` on, the epochs hold what was handed in.
proof fn lemma_av_epochs(
    m: AvModel,
    settings: Settings,
    shown: Seq<Picture>,
    k: int,
    done: Seq<syntax::EpochRange>,
    lists: Seq<Seq<syntax::PacketModel>>,
) -> (all: Seq<Seq<syntax::PacketModel>>)
    requires
        settings.wf(),
        m.video.len() <= u64::MAX,
        plain_video(m.video),
        m.video.len() == shown.len(),
        0 <= k,
        done.len() == k,
        m.epochs(settings, k * settings.epoch_frames, k) is Ok,
        ({
            let frames = m.video.len() as int;
            let at = av::at_most(k * settings.epoch_frames, frames);
            &&& chunks(m.video.skip(at), shown.skip(at), settings.epoch_frames as int)
            &&& written(
                done,
                lists,
                settings.audio,
                shown.take(at),
                heard_of(m.samples, settings, frames, k),
                heard_frames(m.samples, settings, frames, k) > 0,
            )
            &&& true_sound(m.samples, settings, frames, k)
        }),
    ensures
        ({
            let frames = m.video.len() as int;
            let epochs = done + m.epochs(settings, k * settings.epoch_frames, k)->Ok_0;
            let n = epochs.len() as int;
            &&& written(
                epochs,
                all,
                settings.audio,
                shown,
                heard_of(m.samples, settings, frames, n),
                heard_frames(m.samples, settings, frames, n) > 0,
            )
            &&& true_sound(m.samples, settings, frames, n)
            &&& frames <= n * settings.epoch_frames
        }),
    decreases m.video.len() - av::at_most(k * settings.epoch_frames, m.video.len() as int),
{
    let frames = m.video.len() as int;
    let size = settings.epoch_frames as int;
    let start = k * size;
    assert(0 <= k * size) by (nonlinear_arith)
        requires
            0 <= k,
            0 <= size,
    ;
    assert((k + 1) * size == k * size + size) by (nonlinear_arith);
    if start >= frames {
        assert(done + Seq::<syntax::EpochRange>::empty() =~= done);
        assert(shown.take(frames) =~= shown);
        lists
    } else {
        let end = av::at_most(start + size, frames);
        let n = end - start;
        let range = m.epoch(settings, start, k)->Ok_0;
        let rest = m.epochs(settings, start + size, k + 1)->Ok_0;
        lemma_av_epoch(m, settings, start, k);
        lemma_sound_step(m.samples, settings, frames, k);
        let (video, pictures) = (m.video.skip(start), shown.skip(start));
        assert(m.video.subrange(start, end) =~= video.take(n));
        assert(video.skip(n) =~= m.video.skip(end));
        assert(pictures.skip(n) =~= shown.skip(end));
        assert(shown.take(start) + pictures.take(n) =~= shown.take(end));
        let sound = match settings.audio {
            None => Seq::empty(),
            Some(track) => sound_laws::reheard(
                m.samples,
                heard_frames(m.samples, settings, frames, k),
                heard_frames(m.samples, settings, frames, k + 1),
                track.options(),
            ),
        };
        let longer = lemma_written_push(
            done,
            lists,
            settings.audio,
            shown.take(start),
            heard_of(m.samples, settings, frames, k),
            heard_frames(m.samples, settings, frames, k) > 0,
            range,
            video.take(n),
            epoch_sound(m.samples, settings, frames, k)->Ok_0,
            pictures.take(n),
            sound,
            heard_frames(m.samples, settings, frames, k + 1) > 0,
        );
        assert(heard_of(m.samples, settings, frames, k) + sound =~= heard_of(
            m.samples,
            settings,
            frames,
            k + 1,
        ));
        let all = lemma_av_epochs(m, settings, shown, k + 1, done.push(range), longer);
        assert(done.push(range) + rest =~= done + (seq![range] + rest));
        all
    }
}

/// What the epochs of a finished file hold.
pub open spec fn av_heard(m: AvModel, settings: Settings) -> Seq<i16> {
    heard_of(
        m.samples,
        settings,
        m.video.len() as int,
        m.epochs(settings, 0, 0)->Ok_0.len() as int,
    )
}

/// How many sample frames go with the frames.
pub open spec fn av_covered(m: AvModel, settings: Settings, track: AudioTrack) -> int {
    av::at_most(
        m.video.len() * settings.frame_us * track.rate / 1_000_000,
        m.samples.len() as int / track.channels as int,
    )
}

/// The file of an encoder shows the frames that it was handed, as they were reconstructed, and plays
/// the samples that go with them, as they were reconstructed. Without loss these are the samples
/// themselves.
pub proof fn law_av_read_back(m: AvModel, settings: Settings, shown: Seq<Picture>)
    requires
        settings.wf(),
        filled(m, settings, shown),
        m.file(settings) is Ok,
        syntax::file_base(2, m.epochs(settings, 0, 0)->Ok_0.len() as int) <= u32::MAX,
    ensures
        ({
            let file = m.file(settings)->Ok_0;
            &&& decode::file_clip(Backend::Production, file) == Ok::<ClipModel, MediaError>(
                decode::clip_of(settings.stream_list()[0], shown),
            )
            &&& settings.audio matches Some(track) ==> {
                let covered = av_covered(m, settings, track);
                let (rate, channels) = format(track, covered > 0);
                &&& decode::file_samples(Backend::Production, file) == Ok::<
                    Option<(u32, u8, Seq<i16>)>,
                    MediaError,
                >(Some((rate, channels, av_heard(m, settings))))
                &&& track.qstep == 1 ==> av_heard(m, settings) == m.samples.take(
                    covered * track.channels,
                )
            }
        }),
{
    let size = settings.epoch_frames as int;
    let frames = m.video.len() as int;
    let epochs = m.epochs(settings, 0, 0)->Ok_0;
    let n = epochs.len() as int;
    assert(0 * size == 0) by (nonlinear_arith);
    assert(m.video.skip(0) =~= m.video);
    assert(shown.skip(0) =~= shown);
    assert(shown.take(0) =~= Seq::empty());
    let none = Seq::<Seq<syntax::PacketModel>>::empty();
    lemma_nothing_written(m.samples, settings, frames);
    let lists = lemma_av_epochs(m, settings, shown, 0, Seq::empty(), none);
    assert(Seq::<syntax::EpochRange>::empty() + epochs =~= epochs);
    lemma_written_read(
        settings,
        epochs,
        lists,
        shown,
        av_heard(m, settings),
        heard_frames(m.samples, settings, frames, n) > 0,
    );
}

/// Before the first epoch nothing is shown or heard.
pub proof fn lemma_nothing_written(samples: Seq<i16>, settings: Settings, frames: int)
    requires
        settings.wf(),
        0 <= frames,
    ensures
        written(
            Seq::empty(),
            Seq::empty(),
            settings.audio,
            Seq::empty(),
            heard_of(samples, settings, frames, 0),
            heard_frames(samples, settings, frames, 0) > 0,
        ),
        true_sound(samples, settings, frames, 0),
        heard_frames(samples, settings, frames, 0) == 0,
{
    let none = Seq::<Seq<syntax::PacketModel>>::empty();
    assert(laws::joined(none, 0) =~= Seq::empty());
    if let Some(track) = settings.audio {
        let c = track.channels as int;
        vstd::arithmetic::div_mod::lemma_div_pos_is_pos(samples.len() as int, c);
        lemma_bounds(settings, track, frames, samples.len() as int / c, 0);
        assert(0 * c == 0) by (nonlinear_arith);
        assert(samples.take(0) =~= Seq::empty());
    }
}

/// A file of epochs that were written is read back.
pub proof fn lemma_written_read(
    settings: Settings,
    epochs: Seq<syntax::EpochRange>,
    lists: Seq<Seq<syntax::PacketModel>>,
    shown: Seq<Picture>,
    heard: Seq<i16>,
    any: bool,
)
    requires
        crate::container::v1::meta_ok(settings.meta0 as int),
        written(epochs, lists, settings.audio, shown, heard, any),
        assemble::output_of(settings.stream_list(), epochs) is Ok,
        syntax::file_base(2, epochs.len() as int) <= u32::MAX,
    ensures
        ({
            let file = assemble::output_of(settings.stream_list(), epochs)->Ok_0;
            &&& decode::file_clip(Backend::Production, file) == Ok::<ClipModel, MediaError>(
                decode::clip_of(settings.stream_list()[0], shown),
            )
            &&& settings.audio matches Some(track) ==> decode::file_samples(
                Backend::Production,
                file,
            ) == Ok::<Option<(u32, u8, Seq<i16>)>, MediaError>(
                Some((format(track, any).0, format(track, any).1, heard)),
            )
        }),
{
    lemma_lists_plain(lists);
    lemma_streams_plain(settings);
    let streams: Seq<StreamDesc> = settings.stream_list();
    laws::law_file_packets(streams, epochs, lists);
    let base = syntax::file_base(streams.len() as int, epochs.len() as int);
    laws::lemma_clip_of(syntax::file_bytes(streams, epochs), streams, base, shown);
    if let Some(track) = settings.audio {
        sound_laws::lemma_samples_of(
            syntax::file_bytes(streams, epochs),
            streams,
            base,
            (format(track, any).0, format(track, any).1, heard),
        );
    }
}

pub proof fn lemma_lists_plain(lists: Seq<Seq<syntax::PacketModel>>)
    requires
        forall|k: int| 0 <= k < lists.len() ==> laws::frameable(#[trigger] lists[k]),
    ensures
        forall|k: int, i: int|
            0 <= k < lists.len() && 0 <= i < lists[k].len() ==> (#[trigger] lists[k][i]).flags == 0
                && lists[k][i].payload.len() <= u32::MAX,
{
    assert forall|k: int, i: int|
        0 <= k < lists.len() && 0 <= i < lists[k].len() implies (#[trigger] lists[k][i]).flags == 0
        && lists[k][i].payload.len() <= u32::MAX by {
        assert(laws::frameable(lists[k]));
    }
}

/// The streams of an encoder are in order.
pub proof fn lemma_streams_plain(settings: Settings)
    requires
        crate::container::v1::meta_ok(settings.meta0 as int),
    ensures
        ({
            let streams = settings.stream_list();
            &&& 1 <= streams.len() <= 2
            &&& streams[0].kind == StreamKind::Video
            &&& forall|i: int| 0 <= i < streams.len() ==> syntax::stream_ok(#[trigger] streams[i])
            &&& settings.audio is Some ==> decode::stream_of(streams, StreamKind::Audio, 0) is Some
        }),
{
    reveal_with_fuel(decode::stream_of, 3);
}

} // verus!
