//! Samples that were written can be read.
use crate::audio;
use crate::audio::v1::EncodeOptions;
use crate::container::v1::syntax;
use crate::container::v1::{PacketKind, StreamDesc, StreamKind};
use crate::media;
use crate::media::decode;
use crate::media::encode;
use crate::media::encode::{Recipe, Sound};
use crate::media::laws;
use crate::media::scene;
use crate::media::{Backend, ClipModel, MediaError};
use crate::mux::epoch;
use crate::reference;
use crate::video::v1::history;
use crate::video::v1::syntax::Picture;
use vstd::prelude::*;

verus! {

/// Audio packets and no others.
pub open spec fn is_audio() -> spec_fn(syntax::PacketModel) -> bool {
    |p: syntax::PacketModel| p.kind == PacketKind::AudioFrame
}

/// Packets are heard one run after the other.
pub proof fn lemma_heard_runs(
    a: Seq<syntax::PacketModel>,
    b: Seq<syntax::PacketModel>,
    rate: u32,
    channels: u8,
)
    requires
        decode::heard(Backend::Production, a, rate, channels) is Ok,
        ({
            let (r, c, x) = decode::heard(Backend::Production, a, rate, channels)->Ok_0;
            decode::heard(Backend::Production, b, r, c) is Ok
        }),
    ensures
        ({
            let (r, c, x) = decode::heard(Backend::Production, a, rate, channels)->Ok_0;
            let (last_rate, last_channels, y) = decode::heard(Backend::Production, b, r, c)->Ok_0;
            decode::heard(Backend::Production, a + b, rate, channels) == Ok::<
                (u32, u8, Seq<i16>),
                MediaError,
            >((last_rate, last_channels, x + y))
        }),
    decreases a.len(),
{
    if a.len() == 0 {
        assert(a + b =~= b);
        let (last_rate, last_channels, y) = decode::heard(
            Backend::Production,
            b,
            rate,
            channels,
        )->Ok_0;
        assert(Seq::<i16>::empty() + y =~= y);
    } else {
        let p = a[0];
        let rest = a.drop_first();
        assert((a + b)[0] == p);
        assert((a + b).drop_first() =~= rest + b);
        if p.kind == PacketKind::AudioFrame {
            let (r, c, samples) = decode::heard_packet(Backend::Production, p.payload)->Ok_0;
            lemma_heard_runs(rest, b, r, c);
            let (r1, c1, x) = decode::heard(Backend::Production, rest, r, c)->Ok_0;
            let (r2, c2, y) = decode::heard(Backend::Production, b, r1, c1)->Ok_0;
            assert(samples + (x + y) =~= (samples + x) + y);
        } else {
            lemma_heard_runs(rest, b, rate, channels);
        }
    }
}

proof fn lemma_filter_one(p: syntax::PacketModel)
    ensures
        seq![p].filter(is_audio()) == if p.kind == PacketKind::AudioFrame {
            seq![p]
        } else {
            Seq::empty()
        },
{
    reveal_with_fuel(Seq::filter, 2);
    assert(seq![p].drop_last() =~= Seq::empty());
    assert(seq![p].filter(is_audio()) =~= if p.kind == PacketKind::AudioFrame {
        seq![p]
    } else {
        Seq::empty()
    });
}

/// Only audio packets are heard.
proof fn lemma_heard_audio(list: Seq<syntax::PacketModel>, rate: u32, channels: u8)
    ensures
        decode::heard(Backend::Production, list, rate, channels) == decode::heard(
            Backend::Production,
            list.filter(is_audio()),
            rate,
            channels,
        ),
    decreases list.len(),
{
    reveal(Seq::filter);
    if list.len() > 0 {
        let p = list[0];
        let rest = list.drop_first();
        assert(list =~= seq![p] + rest);
        Seq::filter_distributes_over_add(seq![p], rest, is_audio());
        lemma_filter_one(p);
        if p.kind == PacketKind::AudioFrame {
            let kept = seq![p] + rest.filter(is_audio());
            assert(list.filter(is_audio()) == kept);
            assert(kept[0] == p);
            assert(kept.drop_first() =~= rest.filter(is_audio()));
            if let Ok((r, c, samples)) = decode::heard_packet(Backend::Production, p.payload) {
                lemma_heard_audio(rest, r, c);
            }
        } else {
            assert(list.filter(is_audio()) =~= rest.filter(is_audio()));
            lemma_heard_audio(rest, rate, channels);
        }
    }
}

/// Interleaving keeps the audio packets in order.
proof fn lemma_interleaved_audio(
    video: Seq<syntax::PacketModel>,
    audio: Seq<syntax::PacketModel>,
)
    requires
        epoch::all_kind(video, PacketKind::VideoFrame),
        epoch::all_kind(audio, PacketKind::AudioFrame),
    ensures
        epoch::interleaved(video, audio).filter(is_audio()) == audio,
    decreases video.len() + audio.len(),
{
    reveal(Seq::filter);
    let all = epoch::interleaved(video, audio);
    if video.len() == 0 && audio.len() == 0 {
        assert(all.filter(is_audio()) =~= audio);
    } else {
        let audio_last = video.len() == 0 || (audio.len() > 0 && video.last().pts
            <= audio.last().pts);
        let (v, a) = if audio_last {
            (video, audio.drop_last())
        } else {
            (video.drop_last(), audio)
        };
        let last = if audio_last {
            audio.last()
        } else {
            video.last()
        };
        assert forall|i: int| 0 <= i < v.len() implies (#[trigger] v[i]).kind
            == PacketKind::VideoFrame by {
            assert(v[i] == video[i]);
        }
        assert forall|i: int| 0 <= i < a.len() implies (#[trigger] a[i]).kind
            == PacketKind::AudioFrame by {
            assert(a[i] == audio[i]);
        }
        lemma_interleaved_audio(v, a);
        let rest = epoch::interleaved(v, a);
        assert(all =~= rest.push(last)) by {
            if video.len() == 0 {
                assert(audio =~= audio.drop_last().push(audio.last()));
            } else if audio.len() == 0 {
                assert(video =~= video.drop_last().push(video.last()));
                assert(rest =~= v);
            }
        }
        assert(all.drop_last() =~= rest);
        assert(all.last() == last);
        if audio_last {
            assert(audio[audio.len() - 1] == last);
            assert(audio.drop_last().push(audio.last()) =~= audio);
        } else {
            assert(video[video.len() - 1] == last);
        }
        assert(all.filter(is_audio()) =~= audio);
    }
}

// ---------------------------------------------------------------------------------------------
// Runs of samples

/// What a decoder makes of the sample frames from `from` to `end`.
#[verifier::opaque]
pub open spec fn reheard(samples: Seq<i16>, from: int, end: int, opt: EncodeOptions) -> Seq<i16>
    decreases end - from,
{
    if from >= end {
        Seq::empty()
    } else {
        let n = epoch::packet_frames(from, end);
        audio::v1::syntax::to_pcm(
            audio::v1::laws::reconstruction(
                epoch::slice(samples, 0, from, n, opt.channels as int),
                opt,
            ),
        ) + reheard(samples, from + n, end, opt)
    }
}

/// One packet of samples is heard as its encoder reconstructed it.
proof fn lemma_packet(samples: Seq<i16>, opt: EncodeOptions)
    requires
        encode::coded_samples(Backend::Production, samples, opt) is Ok,
    ensures
        ({
            let heard = audio::v1::syntax::to_pcm(audio::v1::laws::reconstruction(samples, opt));
            &&& decode::heard_packet(
                Backend::Production,
                encode::coded_samples(Backend::Production, samples, opt)->Ok_0,
            ) == Ok::<(u32, u8, Seq<i16>), MediaError>((opt.sample_rate, opt.channels, heard))
            &&& opt.qstep == 1 ==> heard == samples
            &&& opt.sample_rate > 0
        }),
{
    reveal(decode::heard_packet);
    audio::v1::codec::law_tokens_short(samples, opt);
    audio::v1::codec::law_encode_decode(samples, opt, 8_388_608, None);
}

pub proof fn lemma_run(
    samples: Seq<i16>,
    from: int,
    end: int,
    opt: EncodeOptions,
    rate: u32,
    channels: u8,
)
    requires
        0 <= from,
        encode::coded_audio(Backend::Production, samples, from, end, opt) is Ok,
        rate == 0 || (rate == opt.sample_rate && channels == opt.channels),
        end * opt.channels <= samples.len(),
    ensures
        ({
            let list = encode::coded_audio(Backend::Production, samples, from, end, opt)->Ok_0;
            let heard = reheard(samples, from, end, opt);
            &&& decode::heard(Backend::Production, list, rate, channels) == Ok::<
                (u32, u8, Seq<i16>),
                MediaError,
            >(
                if from < end {
                    (opt.sample_rate, opt.channels, heard)
                } else {
                    (rate, channels, heard)
                },
            )
            &&& opt.qstep == 1 && from <= end ==> heard == samples.subrange(
                from * opt.channels,
                end * opt.channels,
            )
        }),
    decreases end - from,
{
    reveal(reheard);
    let c = opt.channels as int;
    if from < end {
        let n = epoch::packet_frames(from, end);
        let part = epoch::slice(samples, 0, from, n, c);
        lemma_packet(part, opt);
        lemma_run(samples, from + n, end, opt, opt.sample_rate, opt.channels);
        let list = encode::coded_audio(Backend::Production, samples, from, end, opt)->Ok_0;
        let rest = encode::coded_audio(Backend::Production, samples, from + n, end, opt)->Ok_0;
        assert(list.drop_first() =~= rest);
        assert(0 <= from * c <= (from + n) * c <= end * c) by (nonlinear_arith)
            requires
                0 <= from,
                0 <= n,
                from + n <= end,
                0 <= c,
        ;
        if opt.qstep == 1 {
            assert(part + samples.subrange((from + n) * c, end * c) =~= samples.subrange(
                from * c,
                end * c,
            ));
        }
    } else if from == end {
        assert(0 <= from * c) by (nonlinear_arith)
            requires
                0 <= from,
                0 <= c,
        ;
        assert(samples.subrange(from * c, end * c) =~= Seq::empty());
    }
}

// ---------------------------------------------------------------------------------------------
// Epochs

/// Coded frames make video packets without flags.
pub proof fn lemma_video_plain(
    backend: Backend,
    frames: Seq<Picture>,
    i: int,
    end: int,
    refs: Seq<(u64, Picture)>,
    opt: reference::video_encoder::EncodeOptions,
    frame_us: int,
)
    requires
        encode::coded_frames(backend, frames, i, end, refs, opt, frame_us) is Ok,
    ensures
        ({
            let list = encode::coded_frames(backend, frames, i, end, refs, opt, frame_us)->Ok_0;
            &&& epoch::all_kind(list, PacketKind::VideoFrame)
            &&& forall|j: int| 0 <= j < list.len() ==> (#[trigger] list[j]).flags == 0
        }),
    decreases end - i,
{
    if i < end {
        let (packet, shown) = encode::coded_frame(backend, i as u64, frames[i], refs, opt)->Ok_0;
        let next = history::extended(refs, i as u64, shown);
        lemma_video_plain(backend, frames, i + 1, end, next, opt, frame_us);
        let list = encode::coded_frames(backend, frames, i, end, refs, opt, frame_us)->Ok_0;
        let rest = encode::coded_frames(backend, frames, i + 1, end, next, opt, frame_us)->Ok_0;
        assert forall|j: int| 0 <= j < list.len() implies (#[trigger] list[j]).flags == 0
            && list[j].kind == PacketKind::VideoFrame by {
            if j > 0 {
                assert(list[j] == rest[j - 1]);
            }
        }
    }
}

/// The sample frame at the time of a frame.
pub open spec fn sample_of_frame(clip: ClipModel, sound: Sound, frame: int) -> int {
    frame * media::frame_duration(clip.fps_n, clip.fps_d) * sound.options.sample_rate / 1_000_000
}

/// How many sample frames there are.
pub open spec fn sample_total(sound: Sound) -> int {
    sound.samples.len() as int / sound.options.channels as int
}

/// An epoch can be framed, and what is heard in it is its part of the samples.
proof fn lemma_epoch(
    recipe: Recipe,
    clip: ClipModel,
    sound: Sound,
    k: int,
    start: int,
    end: int,
    rate: u32,
    channels: u8,
)
    requires
        recipe.backend == Backend::Production,
        0 <= start <= end,
        sound.options.channels > 0,
        encode::clip_epoch(recipe, clip, Some(sound), k, start, end) is Ok,
        rate == 0 || (rate == sound.options.sample_rate && channels == sound.options.channels),
    ensures
        ({
            let range = encode::clip_epoch(recipe, clip, Some(sound), k, start, end)->Ok_0;
            let list = laws::clip_list(recipe, clip, Some(sound), k, start, end);
            let from = sample_of_frame(clip, sound, start);
            let last = media::least(sample_of_frame(clip, sound, end), sample_total(sound));
            let heard = reheard(sound.samples, from, last, sound.options);
            &&& range.bytes == epoch::framed(list)
            &&& laws::frameable(list)
            &&& decode::heard(Backend::Production, list, rate, channels) == Ok::<
                (u32, u8, Seq<i16>),
                MediaError,
            >(
                if from < last {
                    (sound.options.sample_rate, sound.options.channels, heard)
                } else {
                    (rate, channels, heard)
                },
            )
            &&& sound.options.qstep == 1 && from <= last ==> heard == sound.samples.subrange(
                from * sound.options.channels,
                last * sound.options.channels,
            )
            &&& 0 <= from
        }),
{
    laws::lemma_epoch_parts(recipe, clip, Some(sound), k, start, end);
    let opt = media::reference_options(recipe.preset, recipe.video_q);
    let frame_us = media::frame_duration(clip.fps_n, clip.fps_d);
    let (pts, end_pts) = (start * frame_us, end * frame_us);
    let video = encode::coded_frames(
        Backend::Production,
        clip.frames,
        start,
        end,
        Seq::empty(),
        opt,
        frame_us,
    )->Ok_0;
    let list_audio = encode::sound_between(Backend::Production, Some(sound), pts, end_pts)->Ok_0;
    lemma_video_plain(
        Backend::Production,
        clip.frames,
        start,
        end,
        Seq::empty(),
        opt,
        frame_us,
    );
    laws::lemma_sound_plain(Backend::Production, Some(sound), pts, end_pts);
    let (r, c) = (sound.options.sample_rate as int, sound.options.channels as int);
    let from = sample_of_frame(clip, sound, start);
    let total = sample_total(sound);
    let last = media::least(sample_of_frame(clip, sound, end), total);
    lemma_frame_time(start, frame_us, r);
    assert(last * c <= sound.samples.len()) by {
        let len = sound.samples.len() as int;
        vstd::arithmetic::div_mod::lemma_fundamental_div_mod(len, c);
        vstd::arithmetic::div_mod::lemma_mod_bound(len, c);
        assert(last * c <= len) by (nonlinear_arith)
            requires
                last <= total,
                len == c * total + len % c,
                0 <= len % c,
                0 < c,
        ;
    }
    lemma_run(sound.samples, from, last, sound.options, rate, channels);
    let inner = epoch::interleaved(video, list_audio);
    let id = (k % 0x1_0000_0000) as u32;
    let head = epoch::start_packet(id, pts as u64, ((end_pts - pts) % 0x1_0000_0000) as u32);
    crate::bytes::lemma_le_bytes_len(id as int, 4);
    lemma_list(head, video, list_audio, rate, channels);
}

pub proof fn lemma_frame_time(frame: int, frame_us: int, rate: int)
    requires
        0 <= frame,
        0 <= frame_us,
        0 <= rate,
    ensures
        0 <= frame * frame_us * rate / 1_000_000,
{
    assert(0 <= frame * frame_us * rate) by (nonlinear_arith)
        requires
            0 <= frame,
            0 <= frame_us,
            0 <= rate,
    ;
}

/// A start, and video and audio packets by time: what is heard is what the audio packets hold.
pub proof fn lemma_list(
    head: syntax::PacketModel,
    video: Seq<syntax::PacketModel>,
    audio: Seq<syntax::PacketModel>,
    rate: u32,
    channels: u8,
)
    requires
        head.kind == PacketKind::EpochStart,
        head.flags == 0,
        head.payload.len() <= u32::MAX,
        epoch::all_kind(video, PacketKind::VideoFrame),
        epoch::all_kind(audio, PacketKind::AudioFrame),
        forall|i: int| 0 <= i < video.len() ==> (#[trigger] video[i]).flags == 0,
        forall|i: int| 0 <= i < audio.len() ==> (#[trigger] audio[i]).flags == 0,
        epoch::payloads_fit(epoch::interleaved(video, audio)),
    ensures
        ({
            let inner = epoch::interleaved(video, audio);
            let list = seq![head] + inner;
            &&& laws::frameable(list)
            &&& epoch::framed(list) == syntax::packet_bytes(head) + epoch::framed(inner)
            &&& decode::heard(Backend::Production, list, rate, channels) == decode::heard(
                Backend::Production,
                audio,
                rate,
                channels,
            )
        }),
{
    let inner = epoch::interleaved(video, audio);
    let list = seq![head] + inner;
    lemma_interleaved_audio(video, audio);
    lemma_heard_audio(inner, rate, channels);
    epoch::lemma_interleaved_flags(video, audio);
    assert(list[0] == head);
    assert(list.drop_first() =~= inner);
    epoch::lemma_framed_split(list);
    assert forall|i: int| 0 <= i < list.len() implies (#[trigger] list[i]).flags == 0
        && list[i].payload.len() <= u32::MAX by {
        if i > 0 {
            assert(list[i] == inner[i - 1]);
        }
    }
}

/// What a decoder makes of the samples of the epochs from `k` on.
pub open spec fn heard_from(clip: ClipModel, sound: Sound, starts: Seq<int>, k: int) -> Seq<i16>
    decreases starts.len() - k,
{
    if k < 0 || k >= starts.len() {
        Seq::empty()
    } else {
        let end = encode::epoch_end(starts, k, clip.frames.len() as int);
        reheard(
            sound.samples,
            sample_of_frame(clip, sound, starts[k]),
            media::least(sample_of_frame(clip, sound, end), sample_total(sound)),
            sound.options,
        ) + heard_from(clip, sound, starts, k + 1)
    }
}

/// How many sample frames go with the clip.
pub open spec fn covered(clip: ClipModel, sound: Sound) -> int {
    media::least(sample_of_frame(clip, sound, clip.frames.len() as int), sample_total(sound))
}

/// Later frames have later samples.
proof fn lemma_later(clip: ClipModel, sound: Sound, a: int, b: int)
    requires
        0 <= a <= b,
    ensures
        0 <= sample_of_frame(clip, sound, a) <= sample_of_frame(clip, sound, b),
{
    let (u, r) = (
        media::frame_duration(clip.fps_n, clip.fps_d),
        sound.options.sample_rate as int,
    );
    assert(0 <= u) by {
        vstd::arithmetic::div_mod::lemma_div_pos_is_pos(
            1_000_000 * clip.fps_d as int,
            media::most(clip.fps_n as int, 1),
        );
    }
    lemma_frame_time(a, u, r);
    assert(a * u * r <= b * u * r) by (nonlinear_arith)
        requires
            0 <= a <= b,
            0 <= u,
            0 <= r,
    ;
    vstd::arithmetic::div_mod::lemma_div_is_ordered(a * u * r, b * u * r, 1_000_000);
}

pub proof fn lemma_epochs(
    recipe: Recipe,
    clip: ClipModel,
    sound: Sound,
    starts: Seq<int>,
    k: int,
    rate: u32,
    channels: u8,
)
    requires
        recipe.backend == Backend::Production,
        0 < clip.frames.len(),
        sound.options.channels > 0,
        laws::in_order(starts, clip.frames.len() as int),
        0 <= k <= starts.len(),
        encode::clip_epochs(recipe, clip, Some(sound), starts, k) is Ok,
        rate == 0 || (rate == sound.options.sample_rate && channels == sound.options.channels),
    ensures
        ({
            let epochs = encode::clip_epochs(recipe, clip, Some(sound), starts, k)->Ok_0;
            let lists = laws::clip_lists(recipe, clip, Some(sound), starts);
            let first = if k < starts.len() {
                sample_of_frame(clip, sound, starts[k])
            } else {
                sample_of_frame(clip, sound, clip.frames.len() as int)
            };
            let heard = heard_from(clip, sound, starts, k);
            &&& epochs.len() == starts.len() - k
            &&& forall|j: int|
                0 <= j < epochs.len() ==> (#[trigger] epochs[j]).bytes == epoch::framed(lists[k + j])
            &&& forall|j: int| k <= j < lists.len() ==> laws::frameable(#[trigger] lists[j])
            &&& decode::heard(Backend::Production, laws::joined(lists, k), rate, channels) == Ok::<
                (u32, u8, Seq<i16>),
                MediaError,
            >(
                if first < covered(clip, sound) {
                    (sound.options.sample_rate, sound.options.channels, heard)
                } else {
                    (rate, channels, heard)
                },
            )
            &&& sound.options.qstep == 1 ==> heard == if first < covered(clip, sound) {
                sound.samples.subrange(
                    first * sound.options.channels,
                    covered(clip, sound) * sound.options.channels,
                )
            } else {
                Seq::empty()
            }
        }),
    decreases starts.len() - k,
{
    let epochs = encode::clip_epochs(recipe, clip, Some(sound), starts, k)->Ok_0;
    let lists = laws::clip_lists(recipe, clip, Some(sound), starts);
    let total = clip.frames.len() as int;
    let c = sound.options.channels as int;
    if k < starts.len() {
        let (start, end) = (starts[k], encode::epoch_end(starts, k, total));
        assert(0 <= start <= end <= total) by {
            if k > 0 {
                assert(starts[0] < starts[k]);
            }
        }
        lemma_later(clip, sound, start, end);
        lemma_later(clip, sound, end, total);
        lemma_epoch(recipe, clip, sound, k, start, end, rate, channels);
        let from = sample_of_frame(clip, sound, start);
        let middle = sample_of_frame(clip, sound, end);
        let last = media::least(middle, sample_total(sound));
        let (r, ch) = if from < last {
            (sound.options.sample_rate, sound.options.channels)
        } else {
            (rate, channels)
        };
        lemma_epochs(recipe, clip, sound, starts, k + 1, r, ch);
        let range = encode::clip_epoch(recipe, clip, Some(sound), k, start, end)->Ok_0;
        let rest = encode::clip_epochs(recipe, clip, Some(sound), starts, k + 1)->Ok_0;
        assert(epochs == seq![range] + rest);
        let list = lists[k];
        assert(list == laws::clip_list(recipe, clip, Some(sound), k, start, end));
        assert forall|j: int| 0 <= j < epochs.len() implies (#[trigger] epochs[j]).bytes
            == epoch::framed(lists[k + j]) by {
            if j > 0 {
                assert(epochs[j] == rest[j - 1]);
                assert(rest[j - 1].bytes == epoch::framed(lists[k + 1 + (j - 1)]));
            }
        }
        lemma_heard_runs(list, laws::joined(lists, k + 1), rate, channels);
        if sound.options.qstep == 1 {
            assert(from > last ==> reheard(sound.samples, from, last, sound.options)
                == Seq::<i16>::empty()) by {
                reveal(reheard);
            }
            lemma_pieces(
                sound.samples,
                from,
                middle,
                sample_total(sound),
                covered(clip, sound),
                c,
                reheard(sound.samples, from, last, sound.options),
            );
        }
    }
}

/// Two pieces of the samples, one behind the other, are one.
proof fn lemma_pieces(
    samples: Seq<i16>,
    from: int,
    middle: int,
    total: int,
    end: int,
    c: int,
    first: Seq<i16>,
)
    requires
        0 <= from <= middle,
        0 < c,
        total == samples.len() as int / c,
        end <= total,
        middle >= end ==> end == media::least(middle, total),
        from <= media::least(middle, total) ==> first == samples.subrange(
            from * c,
            media::least(middle, total) * c,
        ),
        from > media::least(middle, total) ==> first == Seq::<i16>::empty(),
    ensures
        first + (if middle < end {
            samples.subrange(middle * c, end * c)
        } else {
            Seq::empty()
        }) == if from < end {
            samples.subrange(from * c, end * c)
        } else {
            Seq::empty()
        },
{
    let len = samples.len() as int;
    vstd::arithmetic::div_mod::lemma_fundamental_div_mod(len, c);
    vstd::arithmetic::div_mod::lemma_mod_bound(len, c);
    assert(total * c <= len) by (nonlinear_arith)
        requires
            len == c * total + len % c,
            0 <= len % c,
    ;
    assert(0 <= from * c <= middle * c) by (nonlinear_arith)
        requires
            0 <= from <= middle,
            0 < c,
    ;
    if middle < end {
        assert(middle * c <= end * c && end * c <= total * c) by (nonlinear_arith)
            requires
                middle <= end <= total,
                0 < c,
        ;
        assert(samples.subrange(from * c, middle * c) + samples.subrange(middle * c, end * c)
            =~= samples.subrange(from * c, end * c));
    } else if from <= end {
        assert(from * c <= end * c && end * c <= total * c) by (nonlinear_arith)
            requires
                from <= end <= total,
                0 < c,
        ;
        assert(samples.subrange(from * c, end * c) + Seq::<i16>::empty() =~= samples.subrange(
            from * c,
            end * c,
        ));
        if from == end {
            assert(samples.subrange(from * c, end * c) =~= Seq::empty());
        }
    } else {
        assert(Seq::<i16>::empty() + Seq::<i16>::empty() =~= Seq::<i16>::empty());
    }
}

/// The samples of a file that starts with these streams and holds packets in which this is heard.
pub proof fn lemma_samples_of(
    b: Seq<u8>,
    streams: Seq<StreamDesc>,
    n: int,
    heard: (u32, u8, Seq<i16>),
)
    requires
        syntax::decoded_prefix(b) matches Ok((h, front, at)) && front.streams == streams && at == n,
        decode::stream_of(streams, StreamKind::Audio, 0) is Some,
        decode::scanned(b, n).1 is None,
        decode::heard(Backend::Production, decode::scanned(b, n).0, 0, 0) == Ok::<
            (u32, u8, Seq<i16>),
            MediaError,
        >(heard),
    ensures
        decode::file_samples(Backend::Production, b) == Ok::<
            Option<(u32, u8, Seq<i16>)>,
            MediaError,
        >(Some(heard)),
{
}

/// What is heard in a file that was built from epochs of framed packets.
pub proof fn lemma_built(
    streams: Seq<StreamDesc>,
    epochs: Seq<syntax::EpochRange>,
    lists: Seq<Seq<syntax::PacketModel>>,
    heard: (u32, u8, Seq<i16>),
)
    requires
        encode::built(streams, epochs) is Ok,
        syntax::file_base(streams.len() as int, epochs.len() as int) <= u32::MAX,
        decode::stream_of(streams, StreamKind::Audio, 0) is Some,
        forall|i: int| 0 <= i < streams.len() ==> syntax::stream_ok(#[trigger] streams[i]),
        laws::epochs_hold(epochs, lists),
        forall|k: int, i: int|
            0 <= k < lists.len() && 0 <= i < lists[k].len() ==> (#[trigger] lists[k][i]).flags == 0
                && lists[k][i].payload.len() <= u32::MAX,
        decode::heard(Backend::Production, laws::joined(lists, 0), 0, 0) == Ok::<
            (u32, u8, Seq<i16>),
            MediaError,
        >(heard),
    ensures
        decode::file_samples(Backend::Production, encode::built(streams, epochs)->Ok_0) == Ok::<
            Option<(u32, u8, Seq<i16>)>,
            MediaError,
        >(Some(heard)),
{
    laws::law_file_packets(streams, epochs, lists);
    lemma_samples_of(
        syntax::file_bytes(streams, epochs),
        streams,
        syntax::file_base(streams.len() as int, epochs.len() as int),
        heard,
    );
}

/// The epochs of a clip hold its packets, and these can be framed.
proof fn lemma_held(recipe: Recipe, clip: ClipModel, sound: Sound)
    requires
        recipe.backend == Backend::Production,
        0 < clip.frames.len(),
        sound.options.channels > 0,
        recipe.epoch_frames > 0,
        encode::clip_epochs(
            recipe,
            clip,
            Some(sound),
            scene::starts(clip.frames, recipe.epoch_frames as int, clip.frames.len() as int),
            0,
        ) is Ok,
    ensures
        ({
            let starts = scene::starts(
                clip.frames,
                recipe.epoch_frames as int,
                clip.frames.len() as int,
            );
            let epochs = encode::clip_epochs(recipe, clip, Some(sound), starts, 0)->Ok_0;
            let lists = laws::clip_lists(recipe, clip, Some(sound), starts);
            &&& laws::epochs_hold(epochs, lists)
            &&& epochs.len() == starts.len()
            &&& forall|k: int, i: int|
                0 <= k < lists.len() && 0 <= i < lists[k].len() ==> (#[trigger] lists[k][i]).flags
                    == 0 && lists[k][i].payload.len() <= u32::MAX
        }),
{
    let total = clip.frames.len() as int;
    let starts = scene::starts(clip.frames, recipe.epoch_frames as int, total);
    let epochs = encode::clip_epochs(recipe, clip, Some(sound), starts, 0)->Ok_0;
    let lists = laws::clip_lists(recipe, clip, Some(sound), starts);
    scene::law_starts(clip.frames, recipe.epoch_frames as int, total);
    lemma_epochs(recipe, clip, sound, starts, 0, 0, 0);
    assert(laws::epochs_hold(epochs, lists)) by {
        assert forall|k: int| 0 <= k < epochs.len() implies (#[trigger] epochs[k]).bytes
            == epoch::framed(lists[k]) by {
            assert(epochs[k].bytes == epoch::framed(lists[0 + k]));
        }
    }
    assert forall|k: int, i: int|
        0 <= k < lists.len() && 0 <= i < lists[k].len() implies (#[trigger] lists[k][i]).flags == 0
        && lists[k][i].payload.len() <= u32::MAX by {
        assert(laws::frameable(lists[k]));
    }
}

/// A clip with sound has an audio stream.
proof fn lemma_sound_found(clip: ClipModel, sound: Sound)
    ensures
        decode::stream_of(
            encode::clip_streams(clip, Some(sound)),
            StreamKind::Audio,
            0,
        ) is Some,
{
    reveal_with_fuel(decode::stream_of, 3);
}

/// What is heard from the first frame on is the samples from the first on.
proof fn lemma_whole(clip: ClipModel, sound: Sound, heard: Seq<i16>)
    requires
        sound.options.channels > 0,
        heard == if 0 < covered(clip, sound) {
            sound.samples.subrange(
                0 * sound.options.channels,
                covered(clip, sound) * sound.options.channels,
            )
        } else {
            Seq::empty()
        },
    ensures
        heard == sound.samples.take(covered(clip, sound) * sound.options.channels),
{
    let c = sound.options.channels as int;
    let n = covered(clip, sound);
    lemma_later(clip, sound, 0, clip.frames.len() as int);
    vstd::arithmetic::div_mod::lemma_div_pos_is_pos(sound.samples.len() as int, c);
    if n == 0 {
        assert(n * c == 0);
        assert(sound.samples.take(0) =~= Seq::empty());
    }
}

/// Samples that were written with a clip, with the production codecs, are read back as far as the
/// clip goes: each packet as its encoder reconstructed it. Without loss that is the samples
/// themselves. Rate and channel count come with the first of them.
pub proof fn law_samples_read_back(recipe: Recipe, clip: ClipModel, sound: Sound)
    requires
        recipe.backend == Backend::Production,
        0 < clip.frames.len(),
        sound.options.channels > 0,
        crate::container::v1::meta_ok(clip.meta0 as int),
        encode::clip_file(recipe, clip, Some(sound)) is Ok,
        syntax::file_base(
            2,
            scene::starts(
                clip.frames,
                recipe.epoch_frames as int,
                clip.frames.len() as int,
            ).len() as int,
        ) <= u32::MAX,
    ensures
        ({
            let file = encode::clip_file(recipe, clip, Some(sound))->Ok_0;
            let starts = scene::starts(
                clip.frames,
                recipe.epoch_frames as int,
                clip.frames.len() as int,
            );
            let heard = heard_from(clip, sound, starts, 0);
            &&& decode::file_samples(Backend::Production, file) == Ok::<
                Option<(u32, u8, Seq<i16>)>,
                MediaError,
            >(
                Some(
                    if covered(clip, sound) > 0 {
                        (sound.options.sample_rate, sound.options.channels, heard)
                    } else {
                        (0, 0, heard)
                    },
                ),
            )
            &&& sound.options.qstep == 1 ==> heard == sound.samples.take(
                covered(clip, sound) * sound.options.channels,
            )
        }),
{
    let total = clip.frames.len() as int;
    let starts = scene::starts(clip.frames, recipe.epoch_frames as int, total);
    let streams = encode::clip_streams(clip, Some(sound));
    let epochs = encode::clip_epochs(recipe, clip, Some(sound), starts, 0)->Ok_0;
    let lists = laws::clip_lists(recipe, clip, Some(sound), starts);
    scene::law_starts(clip.frames, recipe.epoch_frames as int, total);
    lemma_held(recipe, clip, sound);
    lemma_epochs(recipe, clip, sound, starts, 0, 0, 0);
    laws::lemma_streams_ok(clip, Some(sound));
    assert(sample_of_frame(clip, sound, 0) == 0) by {
        let u = media::frame_duration(clip.fps_n, clip.fps_d);
        let r = sound.options.sample_rate as int;
        assert(0 * u * r == 0) by (nonlinear_arith);
    }
    let heard = heard_from(clip, sound, starts, 0);
    lemma_sound_found(clip, sound);
    lemma_built(
        streams,
        epochs,
        lists,
        if covered(clip, sound) > 0 {
            (sound.options.sample_rate, sound.options.channels, heard)
        } else {
            (0, 0, heard)
        },
    );
    if sound.options.qstep == 1 {
        lemma_whole(clip, sound, heard);
    }
}

// ---------------------------------------------------------------------------------------------
// Samples alone

/// The packets of the epochs of the sample frames from `start` on.
pub open spec fn sample_lists(samples: Seq<i16>, q: u16, length: int, start: int, id: int) -> Seq<
    Seq<syntax::PacketModel>,
>
    decreases samples.len() / 2 - start,
{
    let total = samples.len() as int / 2;
    if start >= total || length <= 0 {
        Seq::empty()
    } else {
        let end = media::least(start + length, total);
        seq![sample_list(samples, q, start, end, id)] + sample_lists(samples, q, length, end, id + 1)
    }
}

/// The packets of the epoch of the sample frames from `start` to `end`.
#[verifier::opaque]
pub open spec fn sample_list(samples: Seq<i16>, q: u16, start: int, end: int, id: int) -> Seq<
    syntax::PacketModel,
> {
    let pts = start * 1_000_000 / 48_000;
    seq![
        epoch::start_packet(
            id as u32,
            pts as u64,
            ((end * 1_000_000 / 48_000 - pts) % 0x1_0000_0000) as u32,
        ),
    ] + encode::coded_audio(Backend::Production, samples, start, end, encode::stereo(q))->Ok_0
}

/// What a decoder makes of the epochs of the sample frames from `start` on.
pub open spec fn samples_heard(samples: Seq<i16>, q: u16, length: int, start: int) -> Seq<i16>
    decreases samples.len() / 2 - start,
{
    let total = samples.len() as int / 2;
    if start >= total || length <= 0 {
        Seq::empty()
    } else {
        let end = media::least(start + length, total);
        reheard(samples, start, end, encode::stereo(q)) + samples_heard(samples, q, length, end)
    }
}

proof fn lemma_sample_epoch(
    samples: Seq<i16>,
    q: u16,
    start: int,
    end: int,
    id: int,
    rate: u32,
    channels: u8,
)
    requires
        0 <= start < end <= samples.len() as int / 2,
        encode::sample_epoch(Backend::Production, samples, q, start, end, id) is Ok,
        rate == 0 || (rate == 48_000 && channels == 2),
    ensures
        ({
            let range = encode::sample_epoch(Backend::Production, samples, q, start, end, id)->Ok_0;
            let list = sample_list(samples, q, start, end, id);
            let heard = reheard(samples, start, end, encode::stereo(q));
            &&& range.bytes == epoch::framed(list)
            &&& laws::frameable(list)
            &&& decode::heard(Backend::Production, list, rate, channels) == Ok::<
                (u32, u8, Seq<i16>),
                MediaError,
            >((48_000, 2, heard))
            &&& q == 1 ==> heard == samples.subrange(start * 2, end * 2)
        }),
{
    reveal(encode::sample_epoch);
    reveal(sample_list);
    let opt = encode::stereo(q);
    let list_audio = encode::coded_audio(Backend::Production, samples, start, end, opt)->Ok_0;
    laws::lemma_audio_plain(Backend::Production, samples, start, end, opt);
    lemma_run(samples, start, end, opt, rate, channels);
    let none = Seq::<syntax::PacketModel>::empty();
    assert(epoch::interleaved(none, list_audio) == list_audio);
    crate::bytes::lemma_le_bytes_len(id as u32 as int, 4);
    let pts = start * 1_000_000 / 48_000;
    let head = epoch::start_packet(
        id as u32,
        pts as u64,
        ((end * 1_000_000 / 48_000 - pts) % 0x1_0000_0000) as u32,
    );
    lemma_list(head, none, list_audio, rate, channels);
}

proof fn lemma_sample_epochs(
    samples: Seq<i16>,
    q: u16,
    length: int,
    start: int,
    id: int,
    rate: u32,
    channels: u8,
)
    requires
        0 <= start,
        0 < length,
        encode::sample_epochs(Backend::Production, samples, q, length, start, id) is Ok,
        rate == 0 || (rate == 48_000 && channels == 2),
    ensures
        ({
            let epochs = encode::sample_epochs(
                Backend::Production,
                samples,
                q,
                length,
                start,
                id,
            )->Ok_0;
            let lists = sample_lists(samples, q, length, start, id);
            let heard = samples_heard(samples, q, length, start);
            let total = samples.len() as int / 2;
            &&& laws::epochs_hold(epochs, lists)
            &&& forall|j: int| 0 <= j < lists.len() ==> laws::frameable(#[trigger] lists[j])
            &&& decode::heard(Backend::Production, laws::joined(lists, 0), rate, channels) == Ok::<
                (u32, u8, Seq<i16>),
                MediaError,
            >(
                if start < total {
                    (48_000, 2, heard)
                } else {
                    (rate, channels, heard)
                },
            )
            &&& q == 1 && start <= total ==> heard == samples.subrange(start * 2, total * 2)
        }),
    decreases samples.len() / 2 - start,
{
    let total = samples.len() as int / 2;
    if start < total {
        let end = media::least(start + length, total);
        let epochs = encode::sample_epochs(
            Backend::Production,
            samples,
            q,
            length,
            start,
            id,
        )->Ok_0;
        let lists = sample_lists(samples, q, length, start, id);
        lemma_sample_epoch(samples, q, start, end, id, rate, channels);
        lemma_sample_epochs(samples, q, length, end, id + 1, 48_000, 2);
        let rest = encode::sample_epochs(
            Backend::Production,
            samples,
            q,
            length,
            end,
            id + 1,
        )->Ok_0;
        let more = sample_lists(samples, q, length, end, id + 1);
        let list = sample_list(samples, q, start, end, id);
        assert(lists == seq![list] + more);
        assert forall|k: int| 0 <= k < epochs.len() implies (#[trigger] epochs[k]).bytes
            == epoch::framed(lists[k]) by {
            if k > 0 {
                assert(epochs[k] == rest[k - 1]);
                assert(lists[k] == more[k - 1]);
            }
        }
        assert forall|j: int| 0 <= j < lists.len() implies laws::frameable(#[trigger] lists[j]) by {
            if j > 0 {
                assert(lists[j] == more[j - 1]);
            }
        }
        lemma_joined_rest(list, more, 0);
        lemma_heard_runs(list, laws::joined(more, 0), rate, channels);
        if q == 1 {
            assert(samples.subrange(start * 2, end * 2) + samples.subrange(end * 2, total * 2)
                =~= samples.subrange(start * 2, total * 2));
        }
    } else if start == total {
        assert(samples.subrange(start * 2, start * 2) =~= Seq::empty());
    }
}

/// Lists behind another are joined as they are without it.
proof fn lemma_joined_rest(
    list: Seq<syntax::PacketModel>,
    more: Seq<Seq<syntax::PacketModel>>,
    k: int,
)
    requires
        0 <= k <= more.len(),
    ensures
        laws::joined(seq![list] + more, k + 1) == laws::joined(more, k),
        k == 0 ==> laws::joined(seq![list] + more, 0) == list + laws::joined(more, 0),
    decreases more.len() - k,
{
    let lists = seq![list] + more;
    if k < more.len() {
        lemma_joined_rest(list, more, k + 1);
        assert(lists[k + 1] == more[k]);
    }
    if k == 0 {
        assert(lists[0] == list);
        assert(laws::joined(lists, 0) == lists[0] + laws::joined(lists, 1));
        assert(laws::joined(lists, 1) == laws::joined(more, 0)) by {
            assert(laws::joined(lists, k + 1) == laws::joined(more, k));
        }
    }
}

/// Stereo samples that were written alone, with the production codecs, are read back: each packet
/// as its encoder reconstructed it. Without loss that is the samples themselves, but for an odd
/// one at the end.
pub proof fn law_sample_file_read_back(samples: Seq<i16>, q: u16, epoch_seconds: int)
    requires
        encode::sample_file(Backend::Production, samples, q, epoch_seconds) is Ok,
        syntax::file_base(
            1,
            sample_lists(
                samples,
                q,
                media::most(epoch_seconds, 1) * 48_000,
                0,
                0,
            ).len() as int,
        ) <= u32::MAX,
    ensures
        ({
            let file = encode::sample_file(Backend::Production, samples, q, epoch_seconds)->Ok_0;
            let heard = samples_heard(samples, q, media::most(epoch_seconds, 1) * 48_000, 0);
            let total = samples.len() as int / 2;
            &&& decode::file_samples(Backend::Production, file) == Ok::<
                Option<(u32, u8, Seq<i16>)>,
                MediaError,
            >(
                Some(
                    if total > 0 {
                        (48_000, 2, heard)
                    } else {
                        (0, 0, heard)
                    },
                ),
            )
            &&& q == 1 ==> heard == samples.take(total * 2)
        }),
{
    let length = media::most(epoch_seconds, 1) * 48_000;
    let total = samples.len() as int / 2;
    let epochs = encode::sample_epochs(Backend::Production, samples, q, length, 0, 0)->Ok_0;
    let lists = sample_lists(samples, q, length, 0, 0);
    let heard = samples_heard(samples, q, length, 0);
    lemma_sample_epochs(samples, q, length, 0, 0, 0, 0);
    assert forall|k: int, i: int|
        0 <= k < lists.len() && 0 <= i < lists[k].len() implies (#[trigger] lists[k][i]).flags == 0
        && lists[k][i].payload.len() <= u32::MAX by {
        assert(laws::frameable(lists[k]));
    }
    let streams = seq![encode::sound_stream(48_000, 2)];
    lemma_built(
        streams,
        epochs,
        lists,
        if total > 0 {
            (48_000, 2, heard)
        } else {
            (0, 0, heard)
        },
    );
}

} // verus!
