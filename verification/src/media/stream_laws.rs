//! What an encoder that hands out epochs writes can be read back.
use crate::container::v1::syntax;
use crate::media::av_laws;
use crate::media::decode;
use crate::media::handed_laws;
use crate::media::sound_laws;
use crate::media::{Backend, ClipModel, MediaError};
use crate::mux::assemble;
use crate::mux::av;
use crate::mux::epoch;
use crate::mux::streaming;
use crate::mux::streaming::StreamModel;
use crate::mux::{AudioTrack, MuxError, Settings};
use crate::video::v1::syntax::Picture;
use vstd::prelude::*;

verus! {

// ---------------------------------------------------------------------------------------------
// Samples

/// The sample frame at which epoch `k` of so many frames starts, whether it is there or not.
pub open spec fn need(settings: Settings, track: AudioTrack, frames: int, k: int) -> int {
    av::at_most(k * settings.epoch_frames, frames) * settings.frame_us * track.rate / 1_000_000
}

/// Later epochs start later.
proof fn lemma_needs(settings: Settings, track: AudioTrack, frames: int, k: int)
    requires
        0 <= k,
        0 <= frames,
    ensures
        0 <= need(settings, track, frames, k) <= need(settings, track, frames, k + 1),
{
    let (e, u, r) = (settings.epoch_frames as int, settings.frame_us as int, track.rate as int);
    assert(0 <= k * e <= (k + 1) * e) by (nonlinear_arith)
        requires
            0 <= k,
            0 <= e,
    ;
    let (a, b) = (av::at_most(k * e, frames), av::at_most((k + 1) * e, frames));
    assert(0 <= a * u * r <= b * u * r) by (nonlinear_arith)
        requires
            0 <= a <= b,
            0 <= u,
            0 <= r,
    ;
    vstd::arithmetic::div_mod::lemma_div_is_ordered(a * u * r, b * u * r, 1_000_000);
}

/// Samples that come later do not change what is heard of those before them.
proof fn lemma_reheard_prefix(
    samples: Seq<i16>,
    more: Seq<i16>,
    from: int,
    end: int,
    opt: crate::audio::v1::EncodeOptions,
)
    requires
        0 <= from,
        end * opt.channels <= samples.len(),
    ensures
        sound_laws::reheard(samples + more, from, end, opt) == sound_laws::reheard(
            samples,
            from,
            end,
            opt,
        ),
    decreases end - from,
{
    reveal(sound_laws::reheard);
    if from < end {
        let c = opt.channels as int;
        let n = epoch::packet_frames(from, end);
        assert(0 <= (from - 0) * c <= (from - 0 + n) * c <= end * c) by (nonlinear_arith)
            requires
                0 <= from,
                0 <= n,
                from + n <= end,
                0 <= c,
        ;
        assert(epoch::slice(samples + more, 0, from, n, c) =~= epoch::slice(
            samples,
            0,
            from,
            n,
            c,
        ));
        lemma_reheard_prefix(samples, more, from + n, end, opt);
    }
}

/// Whole sample frames.
proof fn lemma_whole(samples: Seq<i16>, channels: int, total: int)
    requires
        channels > 0,
        0 <= total,
        samples.len() == total * channels,
    ensures
        samples.len() as int / channels == total,
{
    vstd::arithmetic::div_mod::lemma_div_multiples_vanish(total, channels);
    assert(total * channels == channels * total) by (nonlinear_arith);
}

/// What later frames and samples leave as it is of the epochs before them.
proof fn lemma_pieces_stay(
    samples: Seq<i16>,
    more: Seq<i16>,
    settings: Settings,
    track: AudioTrack,
    frames: int,
    later: int,
    total: int,
    extra: int,
    k: int,
)
    requires
        track.channels > 0,
        samples.len() == total * track.channels,
        (samples + more).len() == (total + extra) * track.channels,
        0 <= total,
        0 <= extra,
        0 <= k,
        0 <= k * settings.epoch_frames <= frames <= later,
        need(settings, track, frames, k) <= total,
    ensures
        av_laws::pieces(samples + more, settings, track, later, k) == av_laws::pieces(
            samples,
            settings,
            track,
            frames,
            k,
        ),
        av_laws::bound(settings, track, later, total + extra, k) == av_laws::bound(
            settings,
            track,
            frames,
            total,
            k,
        ),
    decreases k,
{
    let c = track.channels as int;
    lemma_whole(samples, c, total);
    lemma_whole(samples + more, c, total + extra);
    if k > 0 {
        let e = settings.epoch_frames as int;
        assert(0 <= (k - 1) * e <= k * e) by (nonlinear_arith)
            requires
                0 < k,
                0 <= e,
        ;
        lemma_needs(settings, track, frames, k - 1);
        lemma_pieces_stay(samples, more, settings, track, frames, later, total, extra, k - 1);
        let (from, end) = (
            av_laws::bound(settings, track, frames, total, k - 1),
            av_laws::bound(settings, track, frames, total, k),
        );
        av_laws::lemma_bounds(settings, track, frames, total, k - 1);
        assert(end * c <= total * c) by (nonlinear_arith)
            requires
                end <= total,
                0 < c,
        ;
        lemma_reheard_prefix(samples, more, from, end, track.options());
    }
}

// ---------------------------------------------------------------------------------------------
// Epochs

/// An encoder that was handed these samples, and frames that are shown so.
pub open spec fn holds(
    m: StreamModel,
    settings: Settings,
    samples: Seq<i16>,
    shown: Seq<Picture>,
    lists: Seq<Seq<syntax::PacketModel>>,
) -> bool {
    let size = settings.epoch_frames as int;
    let k = m.made.len() as int;
    let frames = m.coding.frame_index as int;
    &&& m.epoch_start == av::at_most(k * size, frames)
    &&& m.epoch_start + m.pending.len() == frames
    &&& shown.len() == frames
    &&& av_laws::plain_video(m.pending)
    &&& av_laws::chunks(m.pending, shown.skip(m.epoch_start as int), size)
    &&& av_laws::written(
        m.made,
        lists,
        settings.audio,
        shown.take(m.epoch_start as int),
        av_laws::heard_of(samples, settings, frames, k),
        av_laws::heard_frames(samples, settings, frames, k) > 0,
    )
    &&& av_laws::true_sound(samples, settings, frames, k)
    &&& settings.audio matches Some(track) ==> {
        &&& samples.len() == m.total * track.channels
        &&& m.base <= m.total
        &&& m.base <= need(settings, track, frames, k)
        &&& m.samples == samples.skip(m.base * track.channels)
    }
}

/// Such an encoder while more can come: every epoch that was made is complete.
pub open spec fn going(m: StreamModel, settings: Settings) -> bool {
    let size = settings.epoch_frames as int;
    let k = m.made.len() as int;
    let frames = m.coding.frame_index as int;
    &&& handed_laws::followed(m.coding)
    &&& k * size <= frames
    &&& frames % size != 0 ==> m.coding.references == av_laws::tail_references(m.pending, size)
    &&& frames == 0 ==> m.coding.references == Seq::<(u64, Picture)>::empty()
    &&& settings.audio matches Some(track) ==> need(settings, track, frames, k) <= m.total
}

/// The encoder keeps these samples and pictures.
pub open spec fn keeps(
    m: StreamModel,
    settings: Settings,
    samples: Seq<i16>,
    shown: Seq<Picture>,
) -> bool {
    &&& going(m, settings)
    &&& exists|lists: Seq<Seq<syntax::PacketModel>>| #[trigger]
        holds(m, settings, samples, shown, lists)
}

/// The samples of an epoch are taken from those that are kept.
proof fn lemma_audio_taken(
    m: StreamModel,
    settings: Settings,
    track: AudioTrack,
    samples: Seq<i16>,
    frames: int,
    k: int,
    short: bool,
)
    requires
        track.wf(),
        settings.audio == Some(track),
        0 <= k,
        0 <= frames,
        samples.len() == m.total * track.channels,
        m.base <= m.total,
        m.base <= need(settings, track, frames, k),
        need(settings, track, frames, k + 1) <= u64::MAX,
        m.samples == samples.skip(m.base * track.channels),
        m.with_audio(
            track,
            need(settings, track, frames, k) as u64,
            need(settings, track, frames, k + 1) as u64,
            short,
        ).0 is Ok,
    ensures
        ({
            let (first, last) = (
                need(settings, track, frames, k),
                need(settings, track, frames, k + 1),
            );
            let (audio, after) = m.with_audio(track, first as u64, last as u64, short);
            &&& av_laws::epoch_sound(samples, settings, frames, k) == Ok::<
                Seq<syntax::PacketModel>,
                MediaError,
            >(audio->Ok_0)
            &&& after == (StreamModel { samples: after.samples, base: after.base, ..m })
            &&& after.base <= after.total
            &&& after.base <= last
            &&& after.samples == samples.skip(after.base * track.channels)
        }),
{
    let c = track.channels as int;
    let total = m.total as int;
    lemma_whole(samples, c, total);
    lemma_needs(settings, track, frames, k);
    let (first, last) = (
        need(settings, track, frames, k),
        need(settings, track, frames, k + 1),
    );
    let (from, end) = (av::at_most(first, total), av::at_most(last, total));
    assert(from == av_laws::bound(settings, track, frames, total, k));
    assert(end == av_laws::bound(settings, track, frames, total, k + 1));
    let cut = m.discarded(first as u64, c);
    lemma_skip(samples, m.base as int, from, c, total);
    assert(cut.base == from);
    assert(cut.samples == samples.skip(from * c));
    if end > first {
        lemma_skip(samples, from, end, c, total);
        av_laws::lemma_frames_there(samples, c, end);
        av_laws::lemma_same_packets(samples, cut.samples, first, first, end, track);
    }
}

/// Leaving out samples one time and another.
proof fn lemma_skip(samples: Seq<i16>, a: int, b: int, c: int, total: int)
    requires
        0 <= a <= b <= total,
        0 < c,
        samples.len() == total * c,
    ensures
        samples.skip(a * c).skip((b - a) * c) == samples.skip(b * c),
        samples.skip(a * c).skip(0) == samples.skip(a * c),
{
    assert((b - a) * c == b * c - a * c) by (nonlinear_arith);
    assert(0 <= a * c <= b * c <= total * c) by (nonlinear_arith)
        requires
            0 <= a <= b <= total,
            0 < c,
    ;
    assert(samples.skip(a * c).skip((b - a) * c) =~= samples.skip(b * c));
    assert(samples.skip(a * c).skip(0) =~= samples.skip(a * c));
}

/// Where an epoch ends that is closed now.
pub open spec fn next_end(m: StreamModel, settings: Settings) -> int {
    av::at_most(m.epoch_start + settings.epoch_frames, m.coding.frame_index as int)
}

/// What closing an epoch does to the samples and the frames that wait.
proof fn lemma_closed_parts(
    m: StreamModel,
    settings: Settings,
    samples: Seq<i16>,
    shown: Seq<Picture>,
    lists: Seq<Seq<syntax::PacketModel>>,
    short: bool,
)
    requires
        settings.wf(),
        holds(m, settings, samples, shown, lists),
        m.epoch_start < m.coding.frame_index,
        m.closed(settings, next_end(m, settings) as u64, short).0 is None,
    ensures
        ({
            let k = m.made.len() as int;
            let frames = m.coding.frame_index as int;
            let count = next_end(m, settings) - m.epoch_start;
            let after = m.closed(settings, next_end(m, settings) as u64, short).1;
            let range = after.made.last();
            &&& av_laws::epoch_sound(samples, settings, frames, k) matches Ok(audio)
                && epoch::epoch_bytes(
                range.id,
                range.pts,
                range.duration,
                m.pending.take(count),
                audio,
            ) == Ok::<Seq<u8>, MuxError>(range.bytes)
            &&& after.made == m.made.push(range)
            &&& after.pending == m.pending.skip(count)
            &&& after.coding == m.coding
            &&& after.epoch_start == next_end(m, settings)
            &&& after.total == m.total
            &&& after.finished == m.finished
            &&& settings.audio matches Some(track) ==> {
                &&& after.base <= after.total
                &&& after.base <= need(settings, track, frames, k + 1)
                &&& after.samples == samples.skip(after.base * track.channels)
            }
        }),
{
    reveal(StreamModel::closed);
    let size = settings.epoch_frames as int;
    let k = m.made.len() as int;
    let frames = m.coding.frame_index as int;
    let (start, end) = (m.epoch_start as int, next_end(m, settings));
    let us = settings.frame_us as int;
    assert((k + 1) * size == k * size + size) by (nonlinear_arith);
    assert(0 <= start * us <= end * us) by (nonlinear_arith)
        requires
            0 <= start <= end,
            0 <= us,
    ;
    let (pts, duration) = assemble::epoch_span(
        m.epoch_start,
        end as u64,
        settings.frame_us,
    )->Ok_0;
    assert(pts == start * us && pts + duration == end * us);
    if let Some(track) = settings.audio {
        let drained = StreamModel { pending: m.pending.skip(end - start), ..m };
        let r = track.rate as int;
        assert(0 <= start * us * r && 0 <= end * us * r) by (nonlinear_arith)
            requires
                0 <= start,
                0 <= end,
                0 <= us,
                0 <= r,
        ;
        assert(drained.epoch_audio(settings, pts as int, pts + duration, short).0 is Ok);
        let (first, last) = (
            need(settings, track, frames, k),
            need(settings, track, frames, k + 1),
        );
        assert(assemble::sample_at(pts as int, track.rate) == Ok::<u64, MuxError>(first as u64));
        assert(assemble::sample_at(pts + duration, track.rate) == Ok::<u64, MuxError>(last as u64));
        lemma_audio_taken(drained, settings, track, samples, frames, k, short);
    }
}

/// Closing an epoch moves frames and samples into it.
proof fn lemma_closed_holds(
    m: StreamModel,
    settings: Settings,
    samples: Seq<i16>,
    shown: Seq<Picture>,
    lists: Seq<Seq<syntax::PacketModel>>,
    short: bool,
) -> (longer: Seq<Seq<syntax::PacketModel>>)
    requires
        settings.wf(),
        holds(m, settings, samples, shown, lists),
        m.epoch_start < m.coding.frame_index,
        m.closed(settings, next_end(m, settings) as u64, short).0 is None,
    ensures
        ({
            let after = m.closed(settings, next_end(m, settings) as u64, short).1;
            &&& holds(after, settings, samples, shown, longer)
            &&& after.epoch_start == next_end(m, settings)
            &&& after.coding == m.coding
            &&& after.made.len() == m.made.len() + 1
            &&& after.pending == m.pending.skip(next_end(m, settings) - m.epoch_start)
            &&& after.total == m.total
            &&& after.finished == m.finished
        }),
{
    let size = settings.epoch_frames as int;
    let k = m.made.len() as int;
    let frames = m.coding.frame_index as int;
    let (start, end) = (m.epoch_start as int, next_end(m, settings));
    let n = end - start;
    assert((k + 1) * size == k * size + size) by (nonlinear_arith);
    lemma_closed_parts(m, settings, samples, shown, lists, short);
    av_laws::lemma_sound_step(samples, settings, frames, k);
    let after = m.closed(settings, end as u64, short).1;
    let pictures = shown.skip(start);
    assert(pictures.skip(n) =~= shown.skip(end));
    assert(shown.take(start) + pictures.take(n) =~= shown.take(end));
    let sound = match settings.audio {
        None => Seq::empty(),
        Some(track) => sound_laws::reheard(
            samples,
            av_laws::heard_frames(samples, settings, frames, k),
            av_laws::heard_frames(samples, settings, frames, k + 1),
            track.options(),
        ),
    };
    let longer = av_laws::lemma_written_push(
        m.made,
        lists,
        settings.audio,
        shown.take(start),
        av_laws::heard_of(samples, settings, frames, k),
        av_laws::heard_frames(samples, settings, frames, k) > 0,
        after.made.last(),
        m.pending.take(n),
        av_laws::epoch_sound(samples, settings, frames, k)->Ok_0,
        pictures.take(n),
        sound,
        av_laws::heard_frames(samples, settings, frames, k + 1) > 0,
    );
    assert(av_laws::heard_of(samples, settings, frames, k) + sound =~= av_laws::heard_of(
        samples,
        settings,
        frames,
        k + 1,
    ));
    longer
}

/// A run of whole epochs does not matter to the references of what is behind it.
proof fn lemma_tail_skip(video: Seq<syntax::PacketModel>, size: int)
    requires
        0 < size < video.len(),
    ensures
        av_laws::tail_references(video.skip(size), size) == av_laws::tail_references(video, size),
{
}

/// Closing every epoch that is complete.
proof fn lemma_settled(
    m: StreamModel,
    settings: Settings,
    samples: Seq<i16>,
    shown: Seq<Picture>,
    lists: Seq<Seq<syntax::PacketModel>>,
)
    requires
        settings.wf(),
        going(m, settings),
        holds(m, settings, samples, shown, lists),
        m.settled(settings).0 is None,
    ensures
        keeps(m.settled(settings).1, settings, samples, shown),
        m.settled(settings).1.finished == m.finished,
    decreases m.left(),
{
    let size = settings.epoch_frames as int;
    let k = m.made.len() as int;
    let frames = m.coding.frame_index as int;
    let end = m.epoch_end(settings)->Ok_0;
    if m.complete(settings, end) == Ok::<bool, MuxError>(true) {
        assert(m.epoch_start == k * size);
        assert(end == next_end(m, settings));
        assert((k + 1) * size == k * size + size) by (nonlinear_arith);
        let longer = lemma_closed_holds(m, settings, samples, shown, lists, false);
        let after = m.closed(settings, end, false).1;
        if frames % size != 0 {
            assert(m.pending.len() > size) by {
                if m.pending.len() == size {
                    assert(frames == (k + 1) * size);
                    vstd::arithmetic::div_mod::lemma_mod_multiples_basic(k + 1, size);
                }
            }
            lemma_tail_skip(m.pending, size);
        }
        if let Some(track) = settings.audio {
            let (u, r) = (settings.frame_us as int, track.rate as int);
            assert(0 <= end * u * r) by (nonlinear_arith)
                requires
                    0 <= end,
                    0 <= u,
                    0 <= r,
            ;
            assert(need(settings, track, frames, k + 1) <= m.total);
        }
        assert(going(after, settings));
        lemma_settled(after, settings, samples, shown, longer);
    }
}

/// Closing every epoch at the end.
proof fn lemma_drained(
    m: StreamModel,
    settings: Settings,
    samples: Seq<i16>,
    shown: Seq<Picture>,
    lists: Seq<Seq<syntax::PacketModel>>,
) -> (all: Seq<Seq<syntax::PacketModel>>)
    requires
        settings.wf(),
        holds(m, settings, samples, shown, lists),
        m.drained(settings).0 is None,
    ensures
        ({
            let after = m.drained(settings).1;
            &&& holds(after, settings, samples, shown, all)
            &&& after.coding == m.coding
            &&& after.total == m.total
            &&& after.epoch_start == after.coding.frame_index
        }),
    decreases m.left(),
{
    if m.epoch_start >= m.coding.frame_index {
        lists
    } else {
        let longer = lemma_closed_holds(m, settings, samples, shown, lists, true);
        let after = m.closed(settings, next_end(m, settings) as u64, true).1;
        lemma_drained(after, settings, samples, shown, longer)
    }
}

// ---------------------------------------------------------------------------------------------
// Laws

/// An encoder that was handed nothing keeps nothing.
pub proof fn law_stream_start(settings: Settings)
    requires
        settings.wf(),
    ensures
        keeps(StreamModel::start(settings), settings, Seq::empty(), Seq::empty()),
{
    let m = StreamModel::start(settings);
    let size = settings.epoch_frames as int;
    assert(0 * size == 0) by (nonlinear_arith);
    assert(0int % size == 0) by (nonlinear_arith)
        requires
            size > 0,
    ;
    av_laws::lemma_nothing_written(Seq::empty(), settings, 0);
    let none = Seq::<Picture>::empty();
    assert(none.take(0) =~= none);
    assert(none.skip(0) =~= none);
    if let Some(track) = settings.audio {
        let c = track.channels as int;
        assert(0 * c == 0) by (nonlinear_arith);
        lemma_needs(settings, track, 0, 0);
        let (u, r) = (settings.frame_us as int, track.rate as int);
        assert(0 * u * r == 0) by (nonlinear_arith);
        assert(m.samples =~= Seq::<i16>::empty().skip(0));
    }
    assert(holds(m, settings, Seq::empty(), none, Seq::empty()));
}

/// What later samples and frames leave as it is.
proof fn lemma_written_stays(
    m: StreamModel,
    settings: Settings,
    samples: Seq<i16>,
    more: Seq<i16>,
    extra: int,
    later: int,
)
    requires
        settings.wf(),
        going(m, settings),
        0 <= extra,
        m.coding.frame_index <= later,
        settings.audio matches Some(track) ==> samples.len() == m.total * track.channels && (samples
            + more).len() == (m.total + extra) * track.channels,
        settings.audio is None ==> more.len() == 0,
    ensures
        ({
            let k = m.made.len() as int;
            let frames = m.coding.frame_index as int;
            let all = samples + more;
            &&& av_laws::heard_of(all, settings, later, k) == av_laws::heard_of(
                samples,
                settings,
                frames,
                k,
            )
            &&& av_laws::heard_frames(all, settings, later, k) == av_laws::heard_frames(
                samples,
                settings,
                frames,
                k,
            )
            &&& av_laws::true_sound(samples, settings, frames, k) ==> av_laws::true_sound(
                all,
                settings,
                later,
                k,
            )
            &&& settings.audio matches Some(track) ==> need(settings, track, later, k) == need(
                settings,
                track,
                frames,
                k,
            )
        }),
{
    let k = m.made.len() as int;
    let frames = m.coding.frame_index as int;
    if let Some(track) = settings.audio {
        let c = track.channels as int;
        let e = settings.epoch_frames as int;
        let total = m.total as int;
        assert(0 <= k * e) by (nonlinear_arith)
            requires
                0 <= k,
                0 <= e,
        ;
        lemma_pieces_stay(samples, more, settings, track, frames, later, total, extra, k);
        lemma_whole(samples, c, total);
        lemma_whole(samples + more, c, total + extra);
        av_laws::lemma_bounds(settings, track, frames, total, k);
        let at = av_laws::bound(settings, track, frames, total, k);
        av_laws::lemma_frames_there(samples, c, at);
        assert((samples + more).take(at * c) =~= samples.take(at * c));
    }
}

/// A frame that is taken is kept as it was reconstructed, after those before it. Without loss that
/// is the frame itself.
pub proof fn law_stream_push_keeps(
    m: StreamModel,
    settings: Settings,
    samples: Seq<i16>,
    shown: Seq<Picture>,
)
    requires
        settings.wf(),
        keeps(m, settings, samples, shown),
        m.pushed(settings).0 is None,
        handed_laws::next_admitted(m.ready(settings), settings),
    ensures
        ({
            let picture = handed_laws::next_shown(m.ready(settings), settings);
            &&& keeps(m.pushed(settings).1, settings, samples, shown.push(picture))
            &&& settings.options.qstep == 1 ==> picture == m.coding.picture(settings)
        }),
{
    let lists = choose|lists: Seq<Seq<syntax::PacketModel>>| #[trigger]
        holds(m, settings, samples, shown, lists);
    let size = settings.epoch_frames as int;
    let k = m.made.len() as int;
    let frames = m.coding.frame_index as int;
    let start = m.epoch_start as int;
    let ready = m.ready(settings);
    assert(start == k * size);
    assert(frames % size == m.pending.len() as int % size) by {
        assert(frames == size * k + m.pending.len()) by (nonlinear_arith)
            requires
                frames == k * size + m.pending.len(),
        ;
        vstd::arithmetic::div_mod::lemma_mod_multiples_vanish(k, m.pending.len() as int, size);
    }
    if frames == 0 {
        assert(0int % size == 0) by (nonlinear_arith)
            requires
                size > 0,
        ;
    }
    assert(ready.references == av_laws::open_references(m.pending, size));
    handed_laws::lemma_next_shown(ready, settings);
    let picture = handed_laws::next_shown(ready, settings);
    let p = epoch::video_packet(
        (ready.frame_index * settings.frame_us) as u64,
        settings.frame_us as u32,
        ready.payload(settings),
    );
    let rest = shown.skip(start);
    let more = shown.push(picture);
    av_laws::lemma_chunks_push(m.pending, rest, size, p, ready.frame_index, picture);
    assert(more.skip(start) =~= rest.push(picture));
    assert(more.take(start) =~= shown.take(start));
    lemma_written_stays(m, settings, samples, Seq::empty(), 0, frames + 1);
    assert(samples + Seq::<i16>::empty() =~= samples);
    let next = StreamModel { pending: m.pending.push(p), coding: ready.next(settings), ..m };
    assert(holds(next, settings, samples, more, lists));
    assert(going(next, settings));
    lemma_settled(next, settings, samples, more, lists);
}

/// Samples that are taken are kept, after those before them.
pub proof fn law_stream_heard_keeps(
    m: StreamModel,
    settings: Settings,
    samples: Seq<i16>,
    shown: Seq<Picture>,
    count: int,
)
    requires
        settings.wf(),
        keeps(m, settings, samples, shown),
        m.heard(settings, count).0 is None,
    ensures
        keeps(m.heard(settings, count).1, settings, samples + m.staging, shown),
{
    let lists = choose|lists: Seq<Seq<syntax::PacketModel>>| #[trigger]
        holds(m, settings, samples, shown, lists);
    let track = settings.audio->0;
    let c = track.channels as int;
    let extra = count / c;
    let all = samples + m.staging;
    vstd::arithmetic::div_mod::lemma_fundamental_div_mod(count, c);
    assert((m.total + extra) * c == m.total * c + extra * c) by (nonlinear_arith);
    assert(extra * c == c * extra) by (nonlinear_arith);
    assert(count % c == 0 && 0 <= extra) by {
        vstd::arithmetic::div_mod::lemma_div_pos_is_pos(count, c);
    }
    lemma_written_stays(m, settings, samples, m.staging, extra, m.coding.frame_index as int);
    let next = StreamModel {
        samples: m.samples + m.staging,
        staging: Seq::empty(),
        total: (m.total + extra) as u64,
        ..m
    };
    assert(0 <= m.base * c <= m.total * c) by (nonlinear_arith)
        requires
            0 <= m.base <= m.total,
            0 < c,
    ;
    assert(next.samples =~= all.skip(m.base * c));
    assert(holds(next, settings, all, shown, lists));
    lemma_settled(next, settings, all, shown, lists);
}

/// How many sample frames go with the frames.
pub open spec fn covered(m: StreamModel, settings: Settings, track: AudioTrack) -> int {
    av::at_most(
        m.coding.frame_index * settings.frame_us * track.rate / 1_000_000,
        m.total as int,
    )
}

/// The front of a file and the epochs that were handed out, one after the other, show the frames
/// and play the samples that the encoder was handed, as they were reconstructed. Without loss these
/// are the samples themselves. The file has to pass validation, which this encoder leaves to its
/// reader.
pub proof fn law_stream_read_back(
    m: StreamModel,
    settings: Settings,
    samples: Seq<i16>,
    shown: Seq<Picture>,
)
    requires
        settings.wf(),
        keeps(m, settings, samples, shown),
        !m.finished,
        m.ended(settings).0 is None,
        syntax::build_error(settings.stream_list(), m.ended(settings).1.made) is None,
        syntax::file_len(settings.stream_list(), m.ended(settings).1.made) <= usize::MAX,
        syntax::file_base(2, m.ended(settings).1.made.len() as int) <= u32::MAX,
    ensures
        ({
            let after = m.ended(settings).1;
            let n = after.made.len() as int;
            let frames = m.coding.frame_index as int;
            let file = after.prefix + syntax::payload_before(after.made, n);
            let heard = av_laws::heard_of(samples, settings, frames, n);
            &&& decode::file_clip(Backend::Production, file) == Ok::<ClipModel, MediaError>(
                decode::clip_of(settings.stream_list()[0], shown),
            )
            &&& settings.audio matches Some(track) ==> {
                let (rate, channels) = av_laws::format(track, covered(m, settings, track) > 0);
                &&& decode::file_samples(Backend::Production, file) == Ok::<
                    Option<(u32, u8, Seq<i16>)>,
                    MediaError,
                >(Some((rate, channels, heard)))
                &&& track.qstep == 1 ==> heard == samples.take(
                    covered(m, settings, track) * track.channels,
                )
            }
        }),
{
    let lists = choose|lists: Seq<Seq<syntax::PacketModel>>| #[trigger]
        holds(m, settings, samples, shown, lists);
    let all = lemma_drained(m, settings, samples, shown, lists);
    let drained = m.drained(settings).1;
    let after = m.ended(settings).1;
    let frames = m.coding.frame_index as int;
    let n = after.made.len() as int;
    assert(shown.take(frames) =~= shown);
    streaming::law_prefix_and_epochs(settings, m);
    av_laws::lemma_written_read(
        settings,
        after.made,
        all,
        shown,
        av_laws::heard_of(samples, settings, frames, n),
        av_laws::heard_frames(samples, settings, frames, n) > 0,
    );
    if let Some(track) = settings.audio {
        lemma_whole(samples, track.channels as int, m.total as int);
        assert(av_laws::heard_frames(samples, settings, frames, n) == covered(m, settings, track));
    }
}

} // verus!
