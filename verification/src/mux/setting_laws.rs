//! Which settings an encoder takes, and how frames become packets and epochs.
use crate::container::v1::syntax;
use crate::container::v1::{
    ChromaLocation, ColorMatrix, ColorPrimaries, ColorTransfer, ContainerError, PacketKind, VideoMeta,
};
use crate::mux;
use crate::mux::av::AvModel;
use crate::mux::coder;
use crate::mux::streaming::StreamModel;
use crate::mux::video::VideoModel;
use crate::mux::{av, AudioTrack, MuxError, Settings};
use vstd::prelude::*;

verus! {

// ---------------------------------------------------------------------------------------------
// Settings

/// Metadata that stands for itself: four bits each for the matrix, the transfer function and the
/// primaries, one for the range, and the chroma location above, all of them known.
pub open spec fn known(meta0: int) -> bool {
    meta0 % 16 <= 3 && meta0 / 16 % 16 <= 4 && meta0 / 256 % 16 <= 3 && meta0 / 8192 <= 2
}

/// Metadata are taken exactly if they are known.
pub proof fn law_known(v: u32)
    ensures
        crate::container::v1::meta_ok(v as int) <==> known(v as int),
{
    if crate::container::v1::meta_ok(v as int) {
        let m = choose|m: VideoMeta| #[trigger] m.packed() == v;
        crate::media::probe_laws::law_meta_word(m);
    }
    if known(v as int) {
        let (a, b, c, e) = (v % 16, v / 16 % 16, v / 256 % 16, v / 8192);
        let m = VideoMeta {
            matrix: if a == 0 {
                ColorMatrix::Unspecified
            } else if a == 1 {
                ColorMatrix::Bt601
            } else if a == 2 {
                ColorMatrix::Bt709
            } else {
                ColorMatrix::Bt2020Ncl
            },
            transfer: if b == 0 {
                ColorTransfer::Unspecified
            } else if b == 1 {
                ColorTransfer::Bt709
            } else if b == 2 {
                ColorTransfer::Srgb
            } else if b == 3 {
                ColorTransfer::Pq
            } else {
                ColorTransfer::Hlg
            },
            primaries: if c == 0 {
                ColorPrimaries::Unspecified
            } else if c == 1 {
                ColorPrimaries::Bt601
            } else if c == 2 {
                ColorPrimaries::Bt709
            } else {
                ColorPrimaries::Bt2020
            },
            full_range: v / 4096 % 2 == 1,
            chroma: if e == 0 {
                ChromaLocation::Unspecified
            } else if e == 1 {
                ChromaLocation::Left
            } else {
                ChromaLocation::Center
            },
        };
        crate::media::probe_laws::law_meta_word(m);
        assert(m.packed() == v);
    }
}

/// Video is taken if its dimensions are even and not zero and make at most 67 108 864 pixels, the rate
/// has frames and seconds, the quantizer step and the length of an epoch are not zero, the metadata are
/// known, and a frame lasts at least a microsecond and less than 2^32; otherwise the first of these that
/// fails is told.
pub proof fn law_video_settings(w: u32, h: u32, rate: u32, q: u16, frames: u64, meta0: u32)
    ensures
        ({
            let (n, d) = (rate / 65536, rate % 65536);
            let told = mux::video_error(w, h, rate, q, frames, meta0);
            let even = w > 0 && h > 0 && w % 2 == 0 && h % 2 == 0;
            let small = w * h <= 67_108_864;
            let moves = n > 0 && d > 0;
            let lasts = n <= 1_000_000 * d < 4_294_967_296 * n;
            &&& told == Some(MuxError::Dimensions) <==> !even
            &&& told == Some(MuxError::TooManyPixels) <==> even && !small
            &&& told == Some(MuxError::FrameRate) <==> even && small && !moves
            &&& told == Some(MuxError::VideoQuantizer) <==> even && small && moves && q == 0
            &&& told == Some(MuxError::EpochLength) <==> even && small && moves && q > 0 && frames == 0
            &&& told == Some(MuxError::Metadata(ContainerError::BadFront)) <==> even && small && moves
                && q > 0 && frames > 0 && !known(meta0 as int)
            &&& told == Some(MuxError::Timebase) <==> even && small && moves && q > 0 && frames > 0
                && known(meta0 as int) && !lasts
            &&& told is None <==> even && small && moves && q > 0 && frames > 0 && known(
                meta0 as int,
            ) && lasts
        }),
{
    let (n, d) = (rate as int / 65536, rate as int % 65536);
    law_known(meta0);
    if n > 0 {
        crate::media::time_laws::law_packed_frame_duration(rate);
        let t = mux::frame_duration(rate);
        assert(t == 0 <==> 1_000_000 * d < n) by (nonlinear_arith)
            requires
                n > 0,
                d >= 0,
                t * n <= 1_000_000 * d < (t + 1) * n,
        ;
        assert(t > 4_294_967_295 <==> 1_000_000 * d >= 4_294_967_296 * n) by (nonlinear_arith)
            requires
                n > 0,
                t * n <= 1_000_000 * d < (t + 1) * n,
        ;
    }
}

/// Audio is taken with a rate, one to eight channels and a quantizer step; no rate and no channels mean
/// that there is none.
pub proof fn law_audio_settings(rate: u32, channels: u32, q: u16)
    ensures
        mux::audio_error(rate, channels, q) is None <==> rate == 0 && channels == 0 || rate > 0 && 1
            <= channels <= 8 && q > 0,
        channels > 255 <==> mux::audio_error(rate, channels, q) == Some(MuxError::ChannelCount),
        rate == 0 && 1 <= channels <= 255 <==> mux::audio_error(rate, channels, q) == Some(
            MuxError::AudioRate,
        ),
        rate > 0 && (channels == 0 || 9 <= channels <= 255) <==> mux::audio_error(rate, channels, q)
            == Some(MuxError::AudioChannels),
        rate > 0 && 1 <= channels <= 8 && q == 0 <==> mux::audio_error(rate, channels, q) == Some(
            MuxError::AudioQuantizer,
        ),
{
}

/// Staged samples are taken where there is audio, all that were staged, and for all channels alike.
pub proof fn law_staged(track: AudioTrack, count: int, staged: int)
    requires
        track.channels > 0,
        count >= 0,
    ensures
        av::stage_error(None, count, staged) == Some(MuxError::AudioDisabled),
        count != staged <==> av::stage_error(Some(track), count, staged) == Some(MuxError::AudioLength),
        count == staged && count % track.channels as int != 0 <==> av::stage_error(
            Some(track),
            count,
            staged,
        ) == Some(MuxError::AudioAlignment),
        count == staged && count % track.channels as int == 0 <==> av::stage_error(
            Some(track),
            count,
            staged,
        ) is None,
{
}

/// A staging buffer is given where the file is not finished, there is audio, and no more is asked for
/// than allowed.
pub proof fn law_reserved(finished: bool, audio: Option<AudioTrack>, count: int, most: int)
    ensures
        av::reserve_error(finished, audio, count, most) is None <==> !finished && audio is Some && count
            <= most,
        finished <==> av::reserve_error(finished, audio, count, most) == Some(MuxError::Finished),
        !finished && audio is None <==> av::reserve_error(finished, audio, count, most) == Some(
            MuxError::AudioDisabled,
        ),
        !finished && audio is Some && count > most <==> av::reserve_error(finished, audio, count, most)
            == Some(MuxError::AudioStaging),
{
}

// ---------------------------------------------------------------------------------------------
// Frames

/// A frame that is handed over has its luma first, row by row, then the two chroma planes with a quarter
/// as many samples each.
pub proof fn law_handed_picture(w: int, h: int, data: Seq<u8>, i: int)
    requires
        w > 0,
        h > 0,
        w % 2 == 0,
        h % 2 == 0,
        data.len() == w * h + 2 * (w * h / 4),
    ensures
        ({
            let p = coder::shown(w, h, data);
            &&& p.width == w && p.height == h
            &&& p.y.len() == w * h && p.u.len() == w * h / 4 && p.v.len() == w * h / 4
            &&& 0 <= i < w * h ==> p.y[i] == data[i]
            &&& 0 <= i < w * h / 4 ==> p.u[i] == data[w * h + i]
            &&& 0 <= i < w * h / 4 ==> p.v[i] == data[w * h + w * h / 4 + i]
        }),
{
    crate::media::y4m::lemma_area(w, h);
}

/// A frame is predicted from the pictures before it, the newest first: as many as options allow, and
/// four at the most.
pub proof fn law_newest_first(c: coder::Coding, settings: Settings, k: int)
    requires
        c.references.len() <= 4,
        0 <= k < c.references.len(),
    ensures
        ({
            let list = c.considered(settings);
            &&& list.len() <= c.references.len()
            &&& k < settings.options.max_refs <==> k < list.len()
            &&& k < list.len() ==> list[k] == c.references[c.references.len() - 1 - k]
        }),
{
}

/// The packet of frame number `i` of a settled encoder.
pub open spec fn frame_packet(p: syntax::PacketModel, settings: Settings, i: int) -> bool {
    &&& p.kind == PacketKind::VideoFrame
    &&& p.stream_id == 1
    &&& p.flags == 0
    &&& p.pts == i * settings.frame_us
    &&& p.duration == settings.frame_us
}

/// A frame becomes a packet at its time, and the next one comes a frame later.
pub proof fn law_frame_pushed(m: AvModel, settings: Settings)
    requires
        m.push_error(settings) is None,
        settings.frame_us <= u32::MAX,
    ensures
        ({
            let next = m.pushed(settings);
            &&& next.video.len() == m.video.len() + 1
            &&& next.video.drop_last() == m.video
            &&& frame_packet(next.video.last(), settings, m.coding.frame_index as int)
            &&& next.coding.frame_index == m.coding.frame_index + 1
            &&& next.samples == m.samples
        }),
{
    let i = m.coding.frame_index;
    assert(0 <= i * settings.frame_us) by (nonlinear_arith)
        requires
            i >= 0,
            settings.frame_us >= 0,
    ;
    assert(m.pushed(settings).video.drop_last() =~= m.video);
}

// ---------------------------------------------------------------------------------------------
// Epochs

/// An epoch takes frames until it has as many as settings say. The next frame closes it and starts the
/// next one, which is numbered one higher and in which nothing before is referred to.
pub proof fn law_epoch_cut(m: VideoModel, settings: Settings)
    requires
        m.push_error(settings) is None,
        settings.frame_us <= u32::MAX,
        settings.epoch_frames > 0,
        m.epoch_start + m.pending.len() == m.coding.frame_index,
    ensures
        ({
            let next = m.pushed(settings);
            let i = m.coding.frame_index as int;
            &&& next.coding.frame_index == i + 1
            &&& next.epoch_start + next.pending.len() == next.coding.frame_index
            &&& frame_packet(next.pending.last(), settings, i)
            &&& m.pending.len() < settings.epoch_frames ==> {
                &&& next.epochs == m.epochs
                &&& next.epoch_id == m.epoch_id
                &&& next.epoch_start == m.epoch_start
                &&& next.pending.drop_last() == m.pending
            }
            &&& m.pending.len() >= settings.epoch_frames ==> {
                let e = next.epochs.last();
                &&& next.epochs.drop_last() == m.epochs
                &&& next.epoch_id == m.epoch_id + 1
                &&& next.epoch_start == i
                &&& next.pending.len() == 1
                &&& next.coding.references.len() == 1
                &&& e.id == m.epoch_id
                &&& e.pts == m.epoch_start * settings.frame_us
                &&& e.duration == i * settings.frame_us - m.epoch_start * settings.frame_us
            }
        }),
{
    let (i, s) = (m.coding.frame_index, m.epoch_start);
    assert(0 <= i * settings.frame_us) by (nonlinear_arith)
        requires
            i >= 0,
            settings.frame_us >= 0,
    ;
    assert(0 <= s * settings.frame_us <= i * settings.frame_us) by (nonlinear_arith)
        requires
            0 <= s <= i,
            settings.frame_us >= 0,
    ;
    let next = m.pushed(settings);
    if m.full(settings) {
        assert(next.epochs.drop_last() =~= m.epochs);
        let ready = m.closed(settings);
        assert(ready.coding.references.len() == 0);
    } else {
        assert(next.pending.drop_last() =~= m.pending);
    }
}

/// The epochs of a file with audio follow one another: number `id + j` starts with frame
/// `start + j * epoch_frames` and lasts as long as its frames do.
pub proof fn law_av_epochs(m: AvModel, settings: Settings, start: int, id: int, j: int)
    requires
        0 <= start,
        0 <= id,
        0 <= j,
        settings.epoch_frames > 0,
        start + j * settings.epoch_frames < m.video.len() <= u64::MAX,
        m.epochs(settings, start, id) is Ok,
    ensures
        ({
            let list = m.epochs(settings, start, id)->Ok_0;
            let from = start + j * settings.epoch_frames;
            let to = if from + settings.epoch_frames <= m.video.len() {
                from + settings.epoch_frames
            } else {
                m.video.len() as int
            };
            &&& j < list.len()
            &&& list[j].id == id + j
            &&& list[j].pts == from * settings.frame_us
            &&& list[j].duration == to * settings.frame_us - from * settings.frame_us
        }),
    decreases j,
{
    let n = settings.epoch_frames as int;
    assert(j * n >= 0) by (nonlinear_arith)
        requires
            j >= 0,
            n > 0,
    ;
    let list = m.epochs(settings, start, id)->Ok_0;
    let rest = m.epochs(settings, start + n, id + 1)->Ok_0;
    if j == 0 {
        assert(0 * n == 0);
        let end = av::at_most(start + n, m.video.len() as int);
        assert(0 <= start * settings.frame_us <= end * settings.frame_us) by (nonlinear_arith)
            requires
                0 <= start <= end,
                settings.frame_us >= 0,
        ;
        reveal(AvModel::epoch);
    } else {
        assert((j - 1) * n + n == j * n) by (nonlinear_arith);
        law_av_epochs(m, settings, start + n, id + 1, j - 1);
        assert(list[j] == rest[j - 1]);
    }
}

/// Closing an epoch of a stream at frame `end` makes one of the frames before it, with its number, at
/// the time of its first frame and until that of frame `end`.
pub proof fn law_stream_epoch(m: StreamModel, settings: Settings, end: u64, short: bool)
    requires
        m.closed(settings, end, short).0 is None,
    ensures
        ({
            let next = m.closed(settings, end, short).1;
            let e = next.made.last();
            &&& m.epoch_start < end <= m.coding.frame_index
            &&& next.made.drop_last() == m.made
            &&& next.waiting == m.waiting + 1
            &&& next.epoch_start == end
            &&& next.epoch_id == m.epoch_id + 1
            &&& next.pending == m.pending.skip(end - m.epoch_start)
            &&& e.id == m.epoch_id
            &&& e.pts == m.epoch_start * settings.frame_us
            &&& e.duration == end * settings.frame_us - m.epoch_start * settings.frame_us
        }),
{
    reveal(StreamModel::closed);
    let next = m.closed(settings, end, short).1;
    let s = m.epoch_start;
    assert(0 <= s * settings.frame_us) by (nonlinear_arith)
        requires
            s >= 0,
            settings.frame_us >= 0,
    ;
    assert(s < end ==> s * settings.frame_us <= end * settings.frame_us) by (nonlinear_arith)
        requires
            settings.frame_us >= 0,
    ;
    assert(next.made.drop_last() =~= m.made);
}

/// An epoch of a stream is complete when all of its frames are there and, with audio, all sample frames
/// that are heard before it ends.
pub proof fn law_stream_complete(m: StreamModel, settings: Settings, end: u64, need: int)
    requires
        end * settings.frame_us <= u64::MAX,
        settings.audio matches Some(track) ==> end * settings.frame_us * track.rate <= u64::MAX
            && need * 1_000_000 <= end * settings.frame_us * track.rate < (need + 1) * 1_000_000,
    ensures
        m.complete(settings, end) == Ok::<bool, MuxError>(
            m.coding.frame_index >= end && (settings.audio is Some ==> m.total >= need),
        ),
{
    if let Some(track) = settings.audio {
        assert(0 <= end * settings.frame_us * track.rate) by (nonlinear_arith)
            requires
                end >= 0,
                settings.frame_us >= 0,
                track.rate >= 0,
        ;
    }
}

/// After a stream has taken a frame or samples, none of its epochs that is complete is left open.
pub proof fn law_stream_settled(m: StreamModel, settings: Settings)
    requires
        settings.epoch_frames > 0,
        m.settled(settings).0 is None,
    ensures
        ({
            let next = m.settled(settings).1;
            &&& next.epoch_end(settings) is Ok
            &&& next.complete(settings, next.epoch_end(settings)->Ok_0) == Ok::<bool, MuxError>(false)
        }),
    decreases m.left(),
{
    let end = m.epoch_end(settings)->Ok_0;
    if m.complete(settings, end) == Ok::<bool, MuxError>(true) {
        law_stream_epoch(m, settings, end, false);
        let next = m.closed(settings, end, false).1;
        lemma_closed_coding(m, settings, end, false);
        assert(next.left() < m.left());
        law_stream_settled(next, settings);
    }
}

proof fn lemma_closed_coding(m: StreamModel, settings: Settings, end: u64, short: bool)
    ensures
        m.closed(settings, end, short).1.coding == m.coding,
{
    reveal(StreamModel::closed);
}

} // verus!
