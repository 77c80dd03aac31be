//! What the reference codecs write of a clip, they read back.
use crate::container::v1::syntax;
use crate::container::v1::{PacketKind, StreamDesc, StreamKind};
use crate::media;
use crate::media::decode;
use crate::media::encode;
use crate::media::encode::{Recipe, Sound};
use crate::media::laws;
use crate::media::scene;
use crate::media::{Backend, ClipModel, MediaError};
use crate::mux::epoch;
use crate::reference;
use crate::reference::video_encoder;
use crate::reference::video_encoder::EncodeOptions;
use crate::video::v1::history;
use crate::video::v1::packets;
use crate::video::v1::syntax::Picture;
use vstd::prelude::*;

verus! {

// ---------------------------------------------------------------------------------------------
// Frames

/// The references that a frame is coded with.
pub open spec fn chosen(refs: Seq<(u64, Picture)>, opt: EncodeOptions) -> Seq<(u64, Picture)> {
    video_encoder::considered(encode::newest(refs, opt.max_refs as int), opt)
}

/// What the decoder shows of a frame.
pub open spec fn frame_shown(picture: Picture, refs: Seq<(u64, Picture)>, opt: EncodeOptions) -> Picture {
    video_encoder::reconstruction(picture, chosen(refs, opt), opt)
}

/// The decoder takes the packet of a frame: its sides are no longer than packets can say, and its
/// tokens no more than the decoder unpacks.
pub open spec fn frame_taken(picture: Picture, refs: Seq<(u64, Picture)>, opt: EncodeOptions) -> bool {
    &&& crate::video::v1::syntax::dimensions_ok(picture.width, picture.height)
    &&& forall|p: int|
        0 <= p < 3 ==> packets::tokens_fit(
            #[trigger] video_encoder::final_list(picture, chosen(refs, opt), opt, p),
            8_388_608,
            video_encoder::packing(),
        )
}

/// A frame is shown as its encoder reconstructed it.
proof fn lemma_frame(id: u64, picture: Picture, refs: Seq<(u64, Picture)>, opt: EncodeOptions)
    requires
        refs.len() <= 4,
        history::distinct(refs),
        laws::ids_below(refs, id as int),
        opt.motion_radius <= 31,
        encode::coded_frame(Backend::Reference, id, picture, refs, opt) is Ok,
        frame_taken(picture, refs, opt),
    ensures
        ({
            let (packet, shown) = encode::coded_frame(
                Backend::Reference,
                id,
                picture,
                refs,
                opt,
            )->Ok_0;
            &&& shown == frame_shown(picture, refs, opt)
            &&& decode::shown_frame(Backend::Reference, packet, refs) == Ok::<
                (u64, Picture),
                MediaError,
            >((id, shown))
            &&& history::distinct(history::extended(refs, id, shown))
            &&& laws::ids_below(history::extended(refs, id, shown), id + 1)
            &&& history::extended(refs, id, shown).len() <= 4
            &&& opt.qstep == 1 ==> shown == picture
        }),
{
    reveal(encode::coded_frame);
    reveal(decode::shown_frame);
    let list = encode::newest(refs, opt.max_refs as int);
    let picked = chosen(refs, opt);
    assert forall|i: int| 0 <= i < picked.len() implies #[trigger] picked[i] == refs[refs.len() - 1
        - i] by {}
    assert forall|i: int|
        0 <= i < picked.len() && #[trigger] video_encoder::used_by_any(
            picture,
            picked,
            opt,
        )[i] implies crate::video::v1::syntax::find_reference(refs, picked[i].0, 0) == Some(
        picked[i].1,
    ) by {
        history::lemma_find(refs, refs.len() - 1 - i, 0);
    }
    assert forall|i: int, j: int| 0 <= i < j < picked.len() implies (#[trigger] picked[i]).0 != (
    #[trigger] picked[j]).0 by {
        assert(refs[refs.len() - 1 - j].0 != refs[refs.len() - 1 - i].0);
    }
    let (w, h) = (picture.width, picture.height);
    assert(w * h <= 8192 * 8192) by (nonlinear_arith)
        requires
            0 < w <= 8192,
            0 < h <= 8192,
    ;
    video_encoder::law_frame_decodes(id, picture, list, opt, refs, laws::usual());
    if opt.qstep == 1 {
        video_encoder::law_frame_lossless(picture, list, opt);
    }
}

/// What the decoder shows of the frames from `i` to `end`.
#[verifier::opaque]
pub open spec fn rebuilt(
    frames: Seq<Picture>,
    i: int,
    end: int,
    refs: Seq<(u64, Picture)>,
    opt: EncodeOptions,
) -> Seq<Picture>
    decreases end - i,
{
    if i >= end {
        Seq::empty()
    } else {
        let shown = frame_shown(frames[i], refs, opt);
        seq![shown] + rebuilt(frames, i + 1, end, history::extended(refs, i as u64, shown), opt)
    }
}

/// The decoder takes the packets of the frames from `i` to `end`.
#[verifier::opaque]
pub open spec fn decodable(
    frames: Seq<Picture>,
    i: int,
    end: int,
    refs: Seq<(u64, Picture)>,
    opt: EncodeOptions,
) -> bool
    decreases end - i,
{
    if i >= end {
        true
    } else {
        let shown = frame_shown(frames[i], refs, opt);
        &&& frame_taken(frames[i], refs, opt)
        &&& decodable(frames, i + 1, end, history::extended(refs, i as u64, shown), opt)
    }
}

proof fn lemma_run(
    frames: Seq<Picture>,
    i: int,
    end: int,
    refs: Seq<(u64, Picture)>,
    opt: EncodeOptions,
    frame_us: int,
)
    requires
        0 <= i <= end <= frames.len() <= usize::MAX,
        refs.len() <= 4,
        history::distinct(refs),
        laws::ids_below(refs, i),
        opt.motion_radius <= 31,
        encode::coded_frames(Backend::Reference, frames, i, end, refs, opt, frame_us) is Ok,
        decodable(frames, i, end, refs, opt),
    ensures
        ({
            let list = encode::coded_frames(
                Backend::Reference,
                frames,
                i,
                end,
                refs,
                opt,
                frame_us,
            )->Ok_0;
            let shown = rebuilt(frames, i, end, refs, opt);
            &&& decode::shown_frames(Backend::Reference, list, refs) == Ok::<
                Seq<Picture>,
                MediaError,
            >(shown)
            &&& opt.qstep == 1 ==> shown == frames.subrange(i, end)
        }),
    decreases end - i,
{
    reveal(rebuilt);
    reveal(decodable);
    let list = encode::coded_frames(
        Backend::Reference,
        frames,
        i,
        end,
        refs,
        opt,
        frame_us,
    )->Ok_0;
    if i < end {
        let id = i as u64;
        let (packet, shown) = encode::coded_frame(
            Backend::Reference,
            id,
            frames[i],
            refs,
            opt,
        )->Ok_0;
        let next = history::extended(refs, id, shown);
        lemma_frame(id, frames[i], refs, opt);
        lemma_run(frames, i + 1, end, next, opt, frame_us);
        let rest = encode::coded_frames(
            Backend::Reference,
            frames,
            i + 1,
            end,
            next,
            opt,
            frame_us,
        )->Ok_0;
        let first = epoch::video_packet(
            (i * frame_us) as u64,
            (frame_us % 0x1_0000_0000) as u32,
            packet,
        );
        assert(list == seq![first] + rest);
        assert(list[0] == first);
        assert(list.drop_first() =~= rest);
        if opt.qstep == 1 {
            assert(seq![frames[i]] + frames.subrange(i + 1, end) =~= frames.subrange(i, end));
        }
    } else {
        assert(frames.subrange(i, end) =~= Seq::empty());
    }
}

// ---------------------------------------------------------------------------------------------
// Clips

/// An epoch holds its packets, and its video packets show what was coded.
proof fn lemma_epoch(
    recipe: Recipe,
    clip: ClipModel,
    sound: Option<Sound>,
    k: int,
    start: int,
    end: int,
)
    requires
        recipe.backend == Backend::Reference,
        0 <= start <= end <= clip.frames.len() <= usize::MAX,
        encode::clip_epoch(recipe, clip, sound, k, start, end) is Ok,
        epoch::payloads_fit(laws::clip_list(recipe, clip, sound, k, start, end)),
        decodable(
            clip.frames,
            start,
            end,
            Seq::empty(),
            media::reference_options(recipe.preset, recipe.video_q),
        ),
    ensures
        ({
            let range = encode::clip_epoch(recipe, clip, sound, k, start, end)->Ok_0;
            let list = laws::clip_list(recipe, clip, sound, k, start, end);
            let shown = rebuilt(
                clip.frames,
                start,
                end,
                Seq::empty(),
                media::reference_options(recipe.preset, recipe.video_q),
            );
            &&& range.bytes == epoch::framed(list)
            &&& laws::frameable(list)
            &&& list.len() > 0
            &&& list[0].kind == PacketKind::EpochStart
            &&& decode::shown_frames(Backend::Reference, list, Seq::empty()) == Ok::<
                Seq<Picture>,
                MediaError,
            >(shown)
            &&& recipe.video_q == 1 ==> shown == clip.frames.subrange(start, end)
        }),
{
    laws::lemma_epoch_parts(recipe, clip, sound, k, start, end);
    let opt = media::reference_options(recipe.preset, recipe.video_q);
    let frame_us = media::frame_duration(clip.fps_n, clip.fps_d);
    let (pts, end_pts) = (start * frame_us, end * frame_us);
    let none = Seq::<(u64, Picture)>::empty();
    let video = encode::coded_frames(
        Backend::Reference,
        clip.frames,
        start,
        end,
        none,
        opt,
        frame_us,
    )->Ok_0;
    let audio = encode::sound_between(Backend::Reference, sound, pts, end_pts)->Ok_0;
    lemma_run(clip.frames, start, end, none, opt, frame_us);
    crate::media::sound_laws::lemma_video_plain(
        Backend::Reference,
        clip.frames,
        start,
        end,
        none,
        opt,
        frame_us,
    );
    laws::lemma_sound_plain(Backend::Reference, sound, pts, end_pts);
    let id = (k % 0x1_0000_0000) as u32;
    let head = epoch::start_packet(
        id,
        pts as u64,
        ((end_pts - pts) % 0x1_0000_0000) as u32,
    );
    crate::bytes::lemma_le_bytes_len(id as int, 4);
    let inner = epoch::interleaved(video, audio);
    let list = laws::clip_list(recipe, clip, sound, k, start, end);
    assert forall|i: int| 0 <= i < inner.len() implies (#[trigger] inner[i]).payload.len()
        <= u32::MAX by {
        assert(list[i + 1] == inner[i]);
    }
    laws::lemma_list(
        Backend::Reference,
        head,
        video,
        audio,
        rebuilt(clip.frames, start, end, none, opt),
    );
    assert(list[0] == head);
}

/// What the decoder shows of the epochs from `k` on.
pub open spec fn shown_from(
    frames: Seq<Picture>,
    starts: Seq<int>,
    opt: EncodeOptions,
    k: int,
) -> Seq<Picture>
    decreases starts.len() - k,
{
    if k < 0 || k >= starts.len() {
        Seq::empty()
    } else {
        rebuilt(
            frames,
            starts[k],
            encode::epoch_end(starts, k, frames.len() as int),
            Seq::empty(),
            opt,
        ) + shown_from(frames, starts, opt, k + 1)
    }
}

/// The decoder takes every packet of the clip.
pub open spec fn clip_decodable(recipe: Recipe, clip: ClipModel) -> bool {
    let starts = scene::starts(clip.frames, recipe.epoch_frames as int, clip.frames.len() as int);
    forall|j: int|
        0 <= j < starts.len() ==> decodable(
            clip.frames,
            #[trigger] starts[j],
            encode::epoch_end(starts, j, clip.frames.len() as int),
            Seq::empty(),
            media::reference_options(recipe.preset, recipe.video_q),
        )
}

/// Every payload is one whose length a packet can say.
pub open spec fn lengths_fit(lists: Seq<Seq<syntax::PacketModel>>) -> bool {
    forall|k: int| 0 <= k < lists.len() ==> epoch::payloads_fit(#[trigger] lists[k])
}

proof fn lemma_epochs(
    recipe: Recipe,
    clip: ClipModel,
    sound: Option<Sound>,
    starts: Seq<int>,
    k: int,
)
    requires
        recipe.backend == Backend::Reference,
        0 < clip.frames.len() <= usize::MAX,
        laws::in_order(starts, clip.frames.len() as int),
        0 <= k <= starts.len(),
        encode::clip_epochs(recipe, clip, sound, starts, k) is Ok,
        lengths_fit(laws::clip_lists(recipe, clip, sound, starts)),
        forall|j: int|
            0 <= j < starts.len() ==> decodable(
                clip.frames,
                #[trigger] starts[j],
                encode::epoch_end(starts, j, clip.frames.len() as int),
                Seq::empty(),
                media::reference_options(recipe.preset, recipe.video_q),
            ),
    ensures
        ({
            let epochs = encode::clip_epochs(recipe, clip, sound, starts, k)->Ok_0;
            let lists = laws::clip_lists(recipe, clip, sound, starts);
            let opt = media::reference_options(recipe.preset, recipe.video_q);
            &&& epochs.len() == starts.len() - k
            &&& forall|j: int|
                0 <= j < epochs.len() ==> (#[trigger] epochs[j]).bytes == epoch::framed(lists[k + j])
            &&& forall|j: int| k <= j < lists.len() ==> laws::frameable(#[trigger] lists[j])
            &&& laws::joined(lists, k).len() == 0 || laws::joined(lists, k)[0].kind
                == PacketKind::EpochStart
            &&& decode::shown_frames(
                Backend::Reference,
                laws::joined(lists, k),
                Seq::empty(),
            ) == Ok::<Seq<Picture>, MediaError>(shown_from(clip.frames, starts, opt, k))
            &&& recipe.video_q == 1 && k < starts.len() ==> shown_from(clip.frames, starts, opt, k)
                == clip.frames.skip(starts[k])
        }),
    decreases starts.len() - k,
{
    let epochs = encode::clip_epochs(recipe, clip, sound, starts, k)->Ok_0;
    let lists = laws::clip_lists(recipe, clip, sound, starts);
    let opt = media::reference_options(recipe.preset, recipe.video_q);
    let total = clip.frames.len() as int;
    if k < starts.len() {
        let (start, end) = (starts[k], encode::epoch_end(starts, k, total));
        assert(0 <= start <= end <= total) by {
            if k > 0 {
                assert(starts[0] < starts[k]);
            }
        }
        assert(decodable(clip.frames, start, end, Seq::empty(), opt));
        assert(epoch::payloads_fit(lists[k]));
        lemma_epoch(recipe, clip, sound, k, start, end);
        lemma_epochs(recipe, clip, sound, starts, k + 1);
        let range = encode::clip_epoch(recipe, clip, sound, k, start, end)->Ok_0;
        let rest = encode::clip_epochs(recipe, clip, sound, starts, k + 1)->Ok_0;
        assert(epochs == seq![range] + rest);
        let list = lists[k];
        assert(list == laws::clip_list(recipe, clip, sound, k, start, end));
        assert forall|j: int| 0 <= j < epochs.len() implies (#[trigger] epochs[j]).bytes
            == epoch::framed(lists[k + j]) by {
            if j > 0 {
                assert(epochs[j] == rest[j - 1]);
                assert(rest[j - 1].bytes == epoch::framed(lists[k + 1 + (j - 1)]));
            }
        }
        let tail = laws::joined(lists, k + 1);
        laws::lemma_shown_apart(Backend::Reference, list, tail, Seq::empty());
        assert((list + tail)[0] == list[0]);
        if recipe.video_q == 1 {
            if k + 1 < starts.len() {
                assert(clip.frames.subrange(start, end) + clip.frames.skip(end)
                    =~= clip.frames.skip(start));
            } else {
                assert(clip.frames.subrange(start, end) + Seq::<Picture>::empty()
                    =~= clip.frames.skip(start));
            }
        }
    }
}

/// The clip that the reference reader finds in a file of these streams and packets.
proof fn lemma_clip_of(b: Seq<u8>, streams: Seq<StreamDesc>, n: int, shown: Seq<Picture>)
    requires
        syntax::decoded_prefix(b) matches Ok((h, front, at)) && front.streams == streams && at == n,
        streams.len() > 0,
        streams[0].kind == StreamKind::Video,
        decode::scanned(b, n).1 is None,
        decode::shown_frames(Backend::Reference, decode::scanned(b, n).0, Seq::empty()) == Ok::<
            Seq<Picture>,
            MediaError,
        >(shown),
    ensures
        decode::file_clip(Backend::Reference, b) == Ok::<ClipModel, MediaError>(
            decode::clip_of(streams[0], shown),
        ),
{
    let (h, front, at) = syntax::decoded_prefix(b)->Ok_0;
    reference::container::law_front_agrees(b.subrange(32, 32 + h.front_len), h.stream_count as int);
}

/// A clip that was written with the reference codecs is read back with them: the dimensions, the
/// metadata, the rate as its word has it, and for each frame what its encoder reconstructed.
/// Without loss that is the frames themselves.
pub proof fn law_clip_read_back(recipe: Recipe, clip: ClipModel, sound: Option<Sound>)
    requires
        recipe.backend == Backend::Reference,
        0 < clip.frames.len() <= usize::MAX,
        crate::container::v1::meta_ok(clip.meta0 as int),
        encode::clip_file(recipe, clip, sound) is Ok,
        clip_decodable(recipe, clip),
        lengths_fit(
            laws::clip_lists(
                recipe,
                clip,
                sound,
                scene::starts(clip.frames, recipe.epoch_frames as int, clip.frames.len() as int),
            ),
        ),
        syntax::file_base(
            2,
            scene::starts(
                clip.frames,
                recipe.epoch_frames as int,
                clip.frames.len() as int,
            ).len() as int,
        ) <= u32::MAX,
    ensures
        ({
            let file = encode::clip_file(recipe, clip, sound)->Ok_0;
            let starts = scene::starts(
                clip.frames,
                recipe.epoch_frames as int,
                clip.frames.len() as int,
            );
            let shown = shown_from(
                clip.frames,
                starts,
                media::reference_options(recipe.preset, recipe.video_q),
                0,
            );
            &&& decode::file_clip(Backend::Reference, file) == Ok::<ClipModel, MediaError>(
                decode::clip_of(encode::clip_streams(clip, sound)[0], shown),
            )
            &&& recipe.video_q == 1 ==> shown == clip.frames
        }),
{
    let total = clip.frames.len() as int;
    let starts = scene::starts(clip.frames, recipe.epoch_frames as int, total);
    let streams = encode::clip_streams(clip, sound);
    let epochs = encode::clip_epochs(recipe, clip, sound, starts, 0)->Ok_0;
    let lists = laws::clip_lists(recipe, clip, sound, starts);
    scene::law_starts(clip.frames, recipe.epoch_frames as int, total);
    lemma_epochs(recipe, clip, sound, starts, 0);
    assert(laws::epochs_hold(epochs, lists)) by {
        assert forall|k: int| 0 <= k < epochs.len() implies (#[trigger] epochs[k]).bytes
            == epoch::framed(lists[k]) by {
            assert(epochs[k].bytes == epoch::framed(lists[0 + k]));
        }
    }
    assert forall|k: int, i: int|
        0 <= k < lists.len() && 0 <= i < lists[k].len() implies (#[trigger] lists[k][i]).flags == 0
        && lists[k][i].payload.len() <= u32::MAX by {
        assert(laws::frameable(lists[k]));
    }
    laws::lemma_streams_ok(clip, sound);
    laws::law_file_packets(streams, epochs, lists);
    lemma_clip_of(
        syntax::file_bytes(streams, epochs),
        streams,
        syntax::file_base(streams.len() as int, epochs.len() as int),
        shown_from(
            clip.frames,
            starts,
            media::reference_options(recipe.preset, recipe.video_q),
            0,
        ),
    );
    if recipe.video_q == 1 {
        assert(clip.frames.skip(0) =~= clip.frames);
    }
}

} // verus!
