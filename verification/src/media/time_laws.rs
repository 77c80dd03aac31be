//! When things are shown and heard, and in which packets.
use crate::audio;
use crate::container::v1::syntax;
use crate::container::v1::{PacketKind, StreamKind};
use crate::media;
use crate::media::encode;
use crate::media::Backend;
use crate::mux;
use crate::mux::epoch;
use crate::mux::{AudioTrack, Settings};
use crate::reference;
use crate::video::v1::syntax::Picture;
use crate::video::v1::EncoderPreset;
use vstd::prelude::*;

verus! {

/// `t` is the largest integer that is not above `a / b`.
pub open spec fn whole(t: int, a: int, b: int) -> bool {
    t * b <= a < (t + 1) * b
}

proof fn lemma_whole(a: int, b: int)
    requires
        b > 0,
    ensures
        whole(a / b, a, b),
{
    vstd::arithmetic::div_mod::lemma_fundamental_div_mod(a, b);
    vstd::arithmetic::div_mod::lemma_mod_bound(a, b);
    let t = a / b;
    assert(b * t == t * b) by (nonlinear_arith);
    assert((t + 1) * b == t * b + b) by (nonlinear_arith);
}

// ---------------------------------------------------------------------------------------------
// Rates

/// At `n / d` frames a second a frame lasts as many whole microseconds as fit.
pub proof fn law_frame_duration(n: u32, d: u32)
    requires
        n > 0,
    ensures
        whole(media::frame_duration(n, d), 1_000_000 * d, n as int),
{
    lemma_whole(1_000_000 * d as int, n as int);
}

/// The same of a rate in one word, the frames above and the seconds below.
pub proof fn law_packed_frame_duration(v: u32)
    requires
        v >= 65536,
    ensures
        whole(mux::frame_duration(v), 1_000_000 * (v % 65536), (v / 65536) as int),
{
    lemma_whole(1_000_000 * (v as int % 65536), v as int / 65536);
}

/// What presets mean: how far motion is searched for, and in how many pictures.
pub proof fn law_presets(name: EncoderPreset, q: u16)
    ensures
        ({
            let o = mux::preset_options(q, name);
            &&& o.qstep == q
            &&& o.preset == name
            &&& o.allow_palette
            &&& name == EncoderPreset::Fast ==> o.motion_radius == 2 && o.max_refs == 1
            &&& name == EncoderPreset::Balanced ==> o.motion_radius == 4 && o.max_refs == 1
            &&& name == EncoderPreset::Quality ==> o.motion_radius == 5 && o.max_refs == 4
        }),
        ({
            let o = media::reference_options(name, q);
            &&& o.qstep == q
            &&& o.allow_palette
            &&& name == EncoderPreset::Fast ==> o.motion_radius == 2 && o.max_refs == 1
            &&& name == EncoderPreset::Balanced ==> o.motion_radius == 4 && o.max_refs == 1
            &&& name == EncoderPreset::Quality ==> o.motion_radius == 5 && o.max_refs == 4
        }),
{
}

// ---------------------------------------------------------------------------------------------
// Video

/// There is one packet for each frame of an epoch, in order, in stream 1, at the time of the frame and
/// for as long as a frame lasts.
pub proof fn law_video_times(
    backend: Backend,
    frames: Seq<Picture>,
    i: int,
    end: int,
    references: Seq<(u64, Picture)>,
    opt: reference::video_encoder::EncodeOptions,
    frame_us: int,
    j: int,
)
    requires
        0 <= i <= j < end,
        0 <= frame_us <= u32::MAX,
        end * frame_us <= u64::MAX,
        encode::coded_frames(backend, frames, i, end, references, opt, frame_us) is Ok,
    ensures
        ({
            let list = encode::coded_frames(backend, frames, i, end, references, opt, frame_us)->Ok_0;
            let p = list[j - i];
            &&& list.len() == end - i
            &&& p.kind == PacketKind::VideoFrame
            &&& p.stream_id == 1
            &&& p.flags == 0
            &&& p.pts == j * frame_us
            &&& p.duration == frame_us
        }),
    decreases end - i,
{
    let (packet, shown) = encode::coded_frame(backend, i as u64, frames[i], references, opt)->Ok_0;
    let next = crate::video::v1::history::extended(references, i as u64, shown);
    let rest = encode::coded_frames(backend, frames, i + 1, end, next, opt, frame_us)->Ok_0;
    assert(0 <= j * frame_us <= end * frame_us) by (nonlinear_arith)
        requires
            0 <= j <= end,
            0 <= frame_us,
    ;
    if i + 1 < end {
        let k = if j > i {
            j
        } else {
            i + 1
        };
        assert(0 <= k * frame_us <= end * frame_us) by (nonlinear_arith)
            requires
                0 <= k <= end,
                0 <= frame_us,
        ;
        law_video_times(backend, frames, i + 1, end, next, opt, frame_us, k);
    }
}

// ---------------------------------------------------------------------------------------------
// Audio

/// What packet number `j` of sample frames from `from` to `end` is: 960 sample frames, or what is
/// left, in stream 2, at the whole microsecond in which the first of them is heard.
pub open spec fn sound_packet(
    p: syntax::PacketModel,
    payload: Seq<u8>,
    rate: int,
    from: int,
    end: int,
    j: int,
) -> bool {
    let at = from + 960 * j;
    let n = if at + 960 <= end {
        960
    } else {
        end - at
    };
    &&& p.kind == PacketKind::AudioFrame
    &&& p.stream_id == 2
    &&& p.flags == 0
    &&& whole(p.pts as int, 1_000_000 * at, rate)
    &&& whole(p.duration as int, 1_000_000 * n, rate)
    &&& p.payload == payload
}

/// The samples of all channels from sample frame `at` on: 960 sample frames, or what is left.
pub open spec fn heard(samples: Seq<i16>, channels: int, at: int, end: int) -> Seq<i16> {
    samples.subrange(
        at * channels,
        (if at + 960 <= end {
            at + 960
        } else {
            end
        }) * channels,
    )
}

proof fn lemma_fits(at: int, end: int, rate: int, n: int)
    requires
        0 <= at <= end,
        0 < n <= 960,
        rate > 0,
        1_000_000 * end <= u64::MAX,
    ensures
        0 <= at * 1_000_000 / rate <= u64::MAX,
        0 <= n * 1_000_000 / rate <= u32::MAX,
        whole(at * 1_000_000 / rate, 1_000_000 * at, rate),
        whole(n * 1_000_000 / rate, 1_000_000 * n, rate),
{
    lemma_whole(at * 1_000_000, rate);
    lemma_whole(n * 1_000_000, rate);
    let (a, b) = (at * 1_000_000 / rate, n * 1_000_000 / rate);
    assert(0 <= a <= at * 1_000_000) by (nonlinear_arith)
        requires
            a * rate <= at * 1_000_000,
            at * 1_000_000 < (a + 1) * rate,
            0 <= at,
            rate >= 1,
    ;
    assert(0 <= b <= n * 1_000_000) by (nonlinear_arith)
        requires
            b * rate <= n * 1_000_000,
            n * 1_000_000 < (b + 1) * rate,
            0 <= n,
            rate >= 1,
    ;
}

/// Samples are heard in packets of 960 sample frames, one behind the other, with the last one as long
/// as is left: the packets of a clip with sound.
pub proof fn law_sound_times(
    backend: Backend,
    samples: Seq<i16>,
    from: int,
    end: int,
    opt: audio::v1::EncodeOptions,
    j: int,
)
    requires
        0 <= from,
        0 <= j,
        from + 960 * j < end,
        opt.sample_rate > 0,
        1_000_000 * end <= u64::MAX,
        encode::coded_audio(backend, samples, from, end, opt) is Ok,
    ensures
        ({
            let list = encode::coded_audio(backend, samples, from, end, opt)->Ok_0;
            &&& list.len() == (end - from + 959) / 960
            &&& encode::coded_samples(
                backend,
                heard(samples, opt.channels as int, from + 960 * j, end),
                opt,
            ) matches Ok(payload) && sound_packet(
                list[j],
                payload,
                opt.sample_rate as int,
                from,
                end,
                j,
            )
        }),
    decreases end - from,
{
    let n = epoch::packet_frames(from, end);
    let rate = opt.sample_rate as int;
    lemma_fits(from, end, rate, n);
    let list = encode::coded_audio(backend, samples, from, end, opt)->Ok_0;
    let rest = encode::coded_audio(backend, samples, from + n, end, opt)->Ok_0;
    if from + 960 < end {
        law_sound_times(
            backend,
            samples,
            from + 960,
            end,
            opt,
            if j > 0 {
                j - 1
            } else {
                0
            },
        );
    }
    if j > 0 {
        assert(list[j] == rest[j - 1]);
        assert(from + 960 + 960 * (j - 1) == from + 960 * j);
    }
}

/// The same of an encoder that is handed samples.
pub proof fn law_handed_sound_times(
    samples: Seq<i16>,
    from: int,
    end: int,
    track: AudioTrack,
    j: int,
)
    requires
        0 <= from,
        0 <= j,
        from + 960 * j < end,
        track.rate > 0,
        1_000_000 * end <= u64::MAX,
        epoch::audio_packets(samples, 0, from, end, track) is Ok,
    ensures
        ({
            let list = epoch::audio_packets(samples, 0, from, end, track)->Ok_0;
            &&& list.len() == (end - from + 959) / 960
            &&& sound_packet(
                list[j],
                audio::v1::codec::packet_bytes(
                    heard(samples, track.channels as int, from + 960 * j, end),
                    track.options(),
                ),
                track.rate as int,
                from,
                end,
                j,
            )
        }),
    decreases end - from,
{
    let n = epoch::packet_frames(from, end);
    lemma_fits(from, end, track.rate as int, n);
    let list = epoch::audio_packets(samples, 0, from, end, track)->Ok_0;
    let rest = epoch::audio_packets(samples, 0, from + n, end, track)->Ok_0;
    if from + 960 < end {
        law_handed_sound_times(
            samples,
            from + 960,
            end,
            track,
            if j > 0 {
                j - 1
            } else {
                0
            },
        );
    }
    if j > 0 {
        assert(list[j] == rest[j - 1]);
        assert(from + 960 + 960 * (j - 1) == from + 960 * j);
    }
}

/// An epoch from `pts` to `end_pts` has the sample frames that are heard in it: from the one at the
/// whole sample frame of its start to the one before that of its end, as far as there are samples.
pub proof fn law_sound_of_epoch(
    backend: Backend,
    sound: encode::Sound,
    pts: int,
    end_pts: int,
    from: int,
    to: int,
)
    requires
        sound.options.sample_rate > 0,
        end_pts * sound.options.sample_rate <= u64::MAX,
        whole(from, pts * sound.options.sample_rate, 1_000_000),
        whole(to, end_pts * sound.options.sample_rate, 1_000_000),
    ensures
        ({
            let total = sound.samples.len() as int / sound.options.channels as int;
            encode::sound_between(backend, Some(sound), pts, end_pts) == encode::coded_audio(
                backend,
                sound.samples,
                from,
                if to <= total {
                    to
                } else {
                    total
                },
                sound.options,
            )
        }),
{
    let rate = sound.options.sample_rate as int;
    lemma_whole(pts * rate, 1_000_000);
    lemma_whole(end_pts * rate, 1_000_000);
    lemma_unique(from, pts * rate / 1_000_000, pts * rate, 1_000_000);
    lemma_unique(to, end_pts * rate / 1_000_000, end_pts * rate, 1_000_000);
}

proof fn lemma_unique(s: int, t: int, a: int, b: int)
    requires
        b > 0,
        whole(s, a, b),
        whole(t, a, b),
    ensures
        s == t,
{
    if s < t {
        assert((s + 1) * b <= t * b) by (nonlinear_arith)
            requires
                s + 1 <= t,
                b > 0,
        ;
    }
    if t < s {
        assert((t + 1) * b <= s * b) by (nonlinear_arith)
            requires
                t + 1 <= s,
                b > 0,
        ;
    }
}

/// Packets of an epoch come by time, and of those at one time the video packets come first; none is lost.
pub proof fn law_video_first(
    video: Seq<syntax::PacketModel>,
    sound: Seq<syntax::PacketModel>,
    i: int,
    j: int,
)
    requires
        epoch::in_time(video),
        epoch::in_time(sound),
        epoch::all_kind(video, PacketKind::VideoFrame),
        epoch::all_kind(sound, PacketKind::AudioFrame),
        0 <= i < j < epoch::interleaved(video, sound).len(),
    ensures
        ({
            let all = epoch::interleaved(video, sound);
            &&& all.len() == video.len() + sound.len()
            &&& all[i].pts <= all[j].pts
            &&& all[i].pts == all[j].pts && all[i].kind == PacketKind::AudioFrame ==> all[j].kind
                == PacketKind::AudioFrame
        }),
{
    epoch::law_interleaved_sorted(video, sound);
    let all = epoch::interleaved(video, sound);
    epoch::lemma_interleaved_from(video, sound, i);
    epoch::lemma_interleaved_from(video, sound, j);
    assert(epoch::ordered(all[i], all[j]));
    lemma_kinds(video, sound, all[i]);
    lemma_kinds(video, sound, all[j]);
}

proof fn lemma_kinds(
    video: Seq<syntax::PacketModel>,
    sound: Seq<syntax::PacketModel>,
    p: syntax::PacketModel,
)
    requires
        epoch::all_kind(video, PacketKind::VideoFrame),
        epoch::all_kind(sound, PacketKind::AudioFrame),
        video.contains(p) || sound.contains(p),
    ensures
        p.kind == PacketKind::VideoFrame || p.kind == PacketKind::AudioFrame,
{
}

// ---------------------------------------------------------------------------------------------
// Streams

/// The streams of a clip: video, which is number 1, in microseconds, with its size, its rate and its
/// metadata; and, with sound, audio, which is number 2, with its rate and its channels.
pub proof fn law_clip_streams(clip: media::ClipModel, sound: Option<encode::Sound>)
    ensures
        ({
            let s = encode::clip_streams(clip, sound);
            &&& s[0].id == 1 && s[0].kind == StreamKind::Video && s[0].codec == 1
            &&& s[0].timescale == 1_000_000
            &&& s[0].param0 == clip.width && s[0].param1 == clip.height
            &&& clip.fps_n <= 65535 && clip.fps_d <= 65535 ==> s[0].flags / 65536 == clip.fps_n
                && s[0].flags % 65536 == clip.fps_d
            &&& s[0].meta0 == clip.meta0
            &&& sound is None ==> s.len() == 1
            &&& sound matches Some(heard) ==> {
                &&& s.len() == 2
                &&& s[1].id == 2 && s[1].kind == StreamKind::Audio && s[1].codec == 1
                &&& s[1].timescale == 1_000_000
                &&& s[1].param0 == heard.options.sample_rate
                &&& s[1].param1 == heard.options.channels
                &&& s[1].flags == 0 && s[1].meta0 == 0
            }
        }),
{
}

/// The same of an encoder that is handed frames and samples.
pub proof fn law_handed_streams(settings: Settings)
    ensures
        ({
            let s = settings.stream_list();
            &&& s[0].id == 1 && s[0].kind == StreamKind::Video && s[0].codec == 1
            &&& s[0].timescale == 1_000_000
            &&& s[0].param0 == settings.width && s[0].param1 == settings.height
            &&& s[0].flags == settings.fps_flags
            &&& s[0].meta0 == settings.meta0
            &&& settings.audio is None ==> s.len() == 1
            &&& settings.audio matches Some(track) ==> {
                &&& s.len() == 2
                &&& s[1].id == 2 && s[1].kind == StreamKind::Audio && s[1].codec == 1
                &&& s[1].timescale == 1_000_000
                &&& s[1].param0 == track.rate && s[1].param1 == track.channels
                &&& s[1].flags == 0 && s[1].meta0 == 0
            }
        }),
{
}

// ---------------------------------------------------------------------------------------------
// Epochs

/// An epoch of the frames from `start` to `end` has its number, starts at the time of its first frame
/// and lasts as long as its frames do.
#[verifier::spinoff_prover]
pub proof fn law_epoch_time(
    recipe: encode::Recipe,
    clip: media::ClipModel,
    sound: Option<encode::Sound>,
    k: int,
    start: int,
    end: int,
)
    requires
        0 <= k <= u32::MAX,
        0 <= start <= end,
        encode::clip_epoch(recipe, clip, sound, k, start, end) is Ok,
    ensures
        ({
            let e = encode::clip_epoch(recipe, clip, sound, k, start, end)->Ok_0;
            let us = media::frame_duration(clip.fps_n, clip.fps_d);
            &&& e.id == k
            &&& e.pts == start * us
            &&& (end - start) * us <= u32::MAX ==> e.duration == (end - start) * us
        }),
{
    let us = media::frame_duration(clip.fps_n, clip.fps_d);
    let n = media::most(clip.fps_n as int, 1);
    lemma_whole(1_000_000 * clip.fps_d as int, n);
    assert(us >= 0) by (nonlinear_arith)
        requires
            1_000_000 * clip.fps_d < (us + 1) * n,
            n >= 1,
            clip.fps_d >= 0,
    ;
    lemma_span(start, end, us);
    reveal(encode::clip_epoch);
}

proof fn lemma_span(start: int, end: int, us: int)
    requires
        0 <= start <= end,
        0 <= us,
    ensures
        0 <= start * us <= end * us,
        (end - start) * us == end * us - start * us,
{
    assert(0 <= start * us <= end * us) by (nonlinear_arith)
        requires
            0 <= start <= end,
            0 <= us,
    ;
    assert((end - start) * us == end * us - start * us) by (nonlinear_arith);
}

/// The epochs of a clip are numbered from zero, start at the times of their first frames, and last
/// until the next one starts, the last one until the clip ends.
pub proof fn law_epoch_times(
    recipe: encode::Recipe,
    clip: media::ClipModel,
    sound: Option<encode::Sound>,
    starts: Seq<int>,
    k: int,
    j: int,
)
    requires
        0 <= k <= j < starts.len() <= u32::MAX,
        clip.frames.len() > 0,
        encode::clip_epochs(recipe, clip, sound, starts, k) is Ok,
    ensures
        ({
            let list = encode::clip_epochs(recipe, clip, sound, starts, k)->Ok_0;
            let us = media::frame_duration(clip.fps_n, clip.fps_d);
            let end = if j + 1 < starts.len() {
                starts[j + 1]
            } else {
                clip.frames.len() as int
            };
            &&& list.len() == starts.len() - k
            &&& 0 <= starts[j] <= end ==> {
                &&& list[j - k].id == j
                &&& list[j - k].pts == starts[j] * us
                &&& (end - starts[j]) * us <= u32::MAX ==> list[j - k].duration == (end - starts[j])
                    * us
            }
        }),
    decreases starts.len() - k,
{
    let total = clip.frames.len() as int;
    let (start, end) = (starts[k], encode::epoch_end(starts, k, total));
    if 0 <= start <= end {
        law_epoch_time(recipe, clip, sound, k, start, end);
    }
    if k + 1 < starts.len() {
        law_epoch_times(
            recipe,
            clip,
            sound,
            starts,
            k + 1,
            if j > k {
                j
            } else {
                k + 1
            },
        );
    }
}

/// Samples without pictures: stereo at 48 kHz, in epochs of as many seconds as asked for, or one, each
/// numbered and at the whole microsecond of its first sample frame.
pub proof fn law_sample_epochs(
    backend: Backend,
    samples: Seq<i16>,
    q: u16,
    seconds: int,
    start: int,
    id: int,
    j: int,
)
    requires
        0 <= start,
        0 <= id,
        0 <= j,
        seconds >= 1,
        start + 48_000 * seconds * j < samples.len() / 2,
        samples.len() / 2 * 1_000_000 <= u64::MAX,
        id + j <= u32::MAX,
        encode::sample_epochs(backend, samples, q, seconds * 48_000, start, id) is Ok,
    ensures
        ({
            let list = encode::sample_epochs(backend, samples, q, seconds * 48_000, start, id)->Ok_0;
            &&& j < list.len()
            &&& list[j].id == id + j
            &&& whole(
                list[j].pts as int,
                1_000_000 * (start + 48_000 * seconds * j),
                48_000,
            )
        }),
    decreases j,
{
    let total = samples.len() as int / 2;
    let length = seconds * 48_000;
    let end = media::least(start + length, total);
    let list = encode::sample_epochs(backend, samples, q, length, start, id)->Ok_0;
    let rest = encode::sample_epochs(backend, samples, q, length, end, id + 1)->Ok_0;
    reveal(encode::sample_epoch);
    lemma_whole(start * 1_000_000, 48_000);
    if j > 0 {
        assert(48_000 * seconds * j == 48_000 * seconds * (j - 1) + length) by (nonlinear_arith)
            requires
                length == seconds * 48_000,
        ;
        assert(48_000 * seconds * (j - 1) >= 0) by (nonlinear_arith)
            requires
                seconds >= 1,
                j >= 1,
        ;
        law_sample_epochs(backend, samples, q, seconds, end, id + 1, j - 1);
        assert(list[j] == rest[j - 1]);
    } else {
        assert(48_000 * seconds * j == 0) by (nonlinear_arith)
            requires
                j == 0,
        ;
    }
}

} // verus!
