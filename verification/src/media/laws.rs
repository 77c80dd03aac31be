//! What was written can be read.
use crate::container::v1::syntax;
use crate::container::v1::{PacketKind, StreamDesc, StreamKind};
use crate::media;
use crate::media::decode;
use crate::media::encode;
use crate::media::encode::Recipe;
use crate::media::scene;
use crate::media::{Backend, ClipModel, MediaError};
use crate::mux::epoch;
use crate::reference;
use crate::video::v1::decoder;
use crate::video::v1::history;
use crate::video::v1::packets;
use crate::video::v1::syntax::Picture;
use crate::video::v1::EncodeOptions;
use vstd::prelude::*;

verus! {

// ---------------------------------------------------------------------------------------------
// Packets

/// A packet that can be framed and found again.
pub open spec fn findable(p: syntax::PacketModel) -> bool {
    p.flags == 0 && p.payload.len() <= 134_217_728
}

pub open spec fn all_findable(list: Seq<syntax::PacketModel>) -> bool {
    forall|i: int| 0 <= i < list.len() ==> findable(#[trigger] list[i])
}

/// Where two runs of bytes lie one behind the other, so do the rest and the second run.
proof fn lemma_two_runs(b: Seq<u8>, pos: int, x: Seq<u8>, y: Seq<u8>)
    requires
        0 <= pos,
        pos + x.len() + y.len() <= b.len(),
        b.subrange(pos, pos + x.len() + y.len()) == x + y,
    ensures
        b.skip(pos) == x + b.skip(pos + x.len()),
        b.subrange(pos + x.len(), pos + x.len() + y.len()) == y,
{
    let all = b.subrange(pos, pos + x.len() + y.len());
    assert forall|i: int| 0 <= i < x.len() implies b.skip(pos)[i] == x[i] by {
        assert(all[i] == (x + y)[i]);
    }
    assert(b.skip(pos) =~= x + b.skip(pos + x.len()));
    assert forall|i: int| 0 <= i < y.len() implies #[trigger] b[pos + x.len() + i] == y[i] by {
        assert(all[x.len() + i] == (x + y)[x.len() + i]);
    }
    let tail = b.subrange(pos + x.len(), pos + x.len() + y.len());
    assert forall|i: int| 0 <= i < y.len() implies tail[i] == y[i] by {
        assert(b[pos + x.len() + i] == y[i]);
    }
    assert(tail =~= y);
}

/// A framed packet is found.
proof fn lemma_scan_one(b: Seq<u8>, pos: int, p: syntax::PacketModel)
    requires
        0 <= pos,
        pos + syntax::packet_bytes(p).len() <= b.len() <= usize::MAX,
        b.skip(pos) == syntax::packet_bytes(p) + b.skip(pos + syntax::packet_bytes(p).len()),
        findable(p),
    ensures
        decode::scanned(b, pos).0 == seq![p] + decode::scanned(
            b,
            pos + syntax::packet_bytes(p).len(),
        ).0,
        decode::scanned(b, pos).1 == decode::scanned(b, pos + syntax::packet_bytes(p).len()).1,
{
    reveal(decode::scanned);
    syntax::lemma_packet_len(p);
    let n = syntax::packet_bytes(p).len() as int;
    syntax::law_packet_write_read(p, b.skip(pos + n), 134_217_728);
}

/// Nothing is found at the end.
proof fn lemma_scan_end(b: Seq<u8>)
    ensures
        decode::scanned(b, b.len() as int) == (
            Seq::<syntax::PacketModel>::empty(),
            None::<MediaError>,
        ),
{
    reveal(decode::scanned);
}

/// Framed packets are found one after the other.
proof fn lemma_scan(b: Seq<u8>, pos: int, list: Seq<syntax::PacketModel>)
    requires
        0 <= pos,
        pos + epoch::framed(list).len() <= b.len() <= usize::MAX,
        b.subrange(pos, pos + epoch::framed(list).len()) == epoch::framed(list),
        all_findable(list),
    ensures
        decode::scanned(b, pos).0 == list + decode::scanned(
            b,
            pos + epoch::framed(list).len(),
        ).0,
        decode::scanned(b, pos).1 == decode::scanned(b, pos + epoch::framed(list).len()).1,
    decreases list.len(),
{
    let end = pos + epoch::framed(list).len();
    if list.len() == 0 {
        assert(list + decode::scanned(b, pos).0 =~= decode::scanned(b, pos).0);
    } else {
        let p = list[0];
        let rest = list.drop_first();
        epoch::lemma_framed_split(list);
        assert(findable(p));
        let (x, y) = (syntax::packet_bytes(p), epoch::framed(rest));
        lemma_two_runs(b, pos, x, y);
        lemma_scan_one(b, pos, p);
        assert forall|i: int| 0 <= i < rest.len() implies findable(#[trigger] rest[i]) by {
            assert(rest[i] == list[i + 1]);
        }
        lemma_scan(b, pos + x.len(), rest);
        let tail = decode::scanned(b, end).0;
        assert(seq![p] + (rest + tail) =~= list + tail);
    }
}

/// A framed packet that is accepted at all is accepted as what it is.
proof fn lemma_accepted(p: syntax::PacketModel, rest: Seq<u8>)
    requires
        p.flags == 0,
        p.payload.len() <= u32::MAX,
        32 + p.payload.len() <= usize::MAX,
        syntax::decoded_packet(syntax::packet_bytes(p) + rest, 134_217_728) is Ok,
    ensures
        findable(p),
        syntax::decoded_packet(syntax::packet_bytes(p) + rest, 134_217_728) == Ok::<
            (syntax::PacketModel, int),
            crate::container::v1::ContainerError,
        >((p, syntax::packet_bytes(p).len() as int)),
{
    let own = syntax::packet_bytes(p) + rest;
    let max = p.payload.len() as int;
    syntax::law_packet_write_read(p, rest, max);
    syntax::lemma_packet_size(own, 134_217_728);
    lemma_same_packet(own, 134_217_728, max);
}

/// What a packet is does not depend on how long it may be.
proof fn lemma_same_packet(b: Seq<u8>, m: int, n: int)
    requires
        syntax::decoded_packet(b, m) is Ok,
        syntax::decoded_packet(b, n) is Ok,
    ensures
        syntax::decoded_packet(b, m) == syntax::decoded_packet(b, n),
{
}

/// The packets of an epoch pass validation from `pos` on.
#[verifier::opaque]
spec fn valid_from(bytes: Seq<u8>, id: u32, pos: int) -> bool {
    syntax::range_error(bytes, id, pos) is None
}

proof fn lemma_valid_step(bytes: Seq<u8>, id: u32, pos: int, p: syntax::PacketModel, rest: Seq<u8>)
    requires
        0 <= pos < bytes.len() <= usize::MAX,
        valid_from(bytes, id, pos),
        bytes.skip(pos) == syntax::packet_bytes(p) + rest,
        p.flags == 0,
        p.payload.len() <= u32::MAX,
    ensures
        findable(p),
        valid_from(bytes, id, pos + syntax::packet_bytes(p).len()),
        bytes.skip(pos + syntax::packet_bytes(p).len()) == rest,
        pos + syntax::packet_bytes(p).len() <= bytes.len(),
{
    reveal(valid_from);
    syntax::lemma_packet_len(p);
    let own = bytes.skip(pos);
    let n = syntax::packet_bytes(p).len() as int;
    assert(own.len() == bytes.len() - pos);
    lemma_accepted(p, rest);
    assert(bytes.skip(pos + n) =~= own.skip(n));
    assert(own.skip(n) =~= rest);
}

/// Packets whose bytes pass validation can be found again.
proof fn lemma_valid_findable(
    bytes: Seq<u8>,
    id: u32,
    pos: int,
    list: Seq<syntax::PacketModel>,
)
    requires
        0 <= pos <= bytes.len(),
        bytes.len() <= usize::MAX,
        bytes.skip(pos) == epoch::framed(list),
        valid_from(bytes, id, pos),
        forall|i: int|
            0 <= i < list.len() ==> (#[trigger] list[i]).flags == 0 && list[i].payload.len()
                <= u32::MAX,
    ensures
        all_findable(list),
    decreases list.len(),
{
    if list.len() > 0 {
        let p = list[0];
        let rest = list.drop_first();
        epoch::lemma_framed_split(list);
        let n = syntax::packet_bytes(p).len() as int;
        assert(n > 0) by {
            syntax::lemma_packet_len(p);
        }
        assert(bytes.skip(pos).len() == bytes.len() - pos);
        lemma_valid_step(bytes, id, pos, p, epoch::framed(rest));
        assert forall|i: int| 0 <= i < rest.len() implies (#[trigger] rest[i]).flags == 0
            && rest[i].payload.len() <= u32::MAX by {
            assert(rest[i] == list[i + 1]);
        }
        lemma_valid_findable(bytes, id, pos + n, rest);
        assert forall|i: int| 0 <= i < list.len() implies findable(#[trigger] list[i]) by {
            if i > 0 {
                assert(list[i] == rest[i - 1]);
            }
        }
    }
}

/// The lists from `k` on as one.
pub open spec fn joined(lists: Seq<Seq<syntax::PacketModel>>, k: int) -> Seq<syntax::PacketModel>
    decreases lists.len() - k,
{
    if k < 0 || k >= lists.len() {
        Seq::empty()
    } else {
        lists[k] + joined(lists, k + 1)
    }
}

/// Epochs of framed packets hold these packets.
pub open spec fn epochs_hold(
    epochs: Seq<syntax::EpochRange>,
    lists: Seq<Seq<syntax::PacketModel>>,
) -> bool {
    &&& epochs.len() == lists.len()
    &&& forall|k: int| 0 <= k < epochs.len() ==> (#[trigger] epochs[k]).bytes == epoch::framed(lists[k])
}

proof fn lemma_scan_all(
    b: Seq<u8>,
    base: int,
    epochs: Seq<syntax::EpochRange>,
    lists: Seq<Seq<syntax::PacketModel>>,
    k: int,
)
    requires
        0 <= base <= b.len() <= usize::MAX,
        b.skip(base) == syntax::payload_before(epochs, epochs.len() as int),
        epochs_hold(epochs, lists),
        forall|i: int| 0 <= i < lists.len() ==> all_findable(#[trigger] lists[i]),
        0 <= k <= epochs.len(),
    ensures
        decode::scanned(b, base + syntax::payload_before(epochs, k).len()) == (
            joined(lists, k),
            None::<MediaError>,
        ),
    decreases epochs.len() - k,
{
    let before = syntax::payload_before(epochs, k);
    if k < epochs.len() {
        let list = lists[k];
        assert(epochs[k].bytes == epoch::framed(list));
        let after = syntax::payload_before(epochs, k + 1);
        assert(after == before + epochs[k].bytes);
        syntax::lemma_payload_before(epochs, k + 1, epochs.len() as int);
        let pos = base + before.len();
        let end = pos + epochs[k].bytes.len();
        assert(b.subrange(pos, end) =~= epochs[k].bytes) by {
            assert forall|i: int| 0 <= i < epochs[k].bytes.len() implies b.subrange(pos, end)[i]
                == epochs[k].bytes[i] by {
                assert(b.skip(base)[before.len() + i] == after[before.len() + i]);
            }
        }
        assert(all_findable(list));
        lemma_scan(b, pos, list);
        lemma_scan_all(b, base, epochs, lists, k + 1);
    } else {
        assert(b.skip(base).len() == before.len());
        lemma_scan_end(b);
    }
}

/// The packets of an epoch of a file can be found in it.
proof fn lemma_epoch_findable(
    streams: Seq<StreamDesc>,
    epochs: Seq<syntax::EpochRange>,
    list: Seq<syntax::PacketModel>,
    k: int,
)
    requires
        syntax::build_error(streams, epochs) is None,
        syntax::file_len(streams, epochs) <= usize::MAX,
        0 <= k < epochs.len(),
        epochs[k].bytes == epoch::framed(list),
        forall|i: int|
            0 <= i < list.len() ==> (#[trigger] list[i]).flags == 0 && list[i].payload.len()
                <= u32::MAX,
    ensures
        all_findable(list),
{
    syntax::law_checked_ids(epochs);
    syntax::lemma_ranges_from(epochs, 0, k);
    let bytes = epochs[k].bytes;
    assert(bytes.skip(0) =~= bytes);
    syntax::lemma_payload_before(epochs, k + 1, epochs.len() as int);
    assert(syntax::payload_before(epochs, k + 1).len() >= bytes.len());
    assert(valid_from(bytes, epochs[k].id, 0)) by {
        reveal(valid_from);
    }
    lemma_valid_findable(bytes, epochs[k].id, 0, list);
}

/// A file that was built from epochs of framed packets starts with its streams and holds these
/// packets, and nothing else.
#[verifier::spinoff_prover]
pub proof fn law_file_packets(
    streams: Seq<StreamDesc>,
    epochs: Seq<syntax::EpochRange>,
    lists: Seq<Seq<syntax::PacketModel>>,
)
    requires
        syntax::build_error(streams, epochs) is None,
        syntax::file_len(streams, epochs) <= usize::MAX,
        syntax::file_base(streams.len() as int, epochs.len() as int) <= u32::MAX,
        forall|i: int| 0 <= i < streams.len() ==> syntax::stream_ok(#[trigger] streams[i]),
        epochs_hold(epochs, lists),
        forall|k: int, i: int|
            0 <= k < lists.len() && 0 <= i < lists[k].len() ==> (#[trigger] lists[k][i]).flags == 0
                && lists[k][i].payload.len() <= u32::MAX,
    ensures
        ({
            let b = syntax::file_bytes(streams, epochs);
            let base = syntax::file_base(streams.len() as int, epochs.len() as int);
            &&& syntax::decoded_prefix(b) matches Ok((h, front, n)) && front.streams == streams && n
                == base
            &&& decode::scanned(b, base) == (joined(lists, 0), None::<MediaError>)
        }),
{
    let b = syntax::file_bytes(streams, epochs);
    let base = syntax::file_base(streams.len() as int, epochs.len() as int);
    syntax::law_checked_ids(epochs);
    syntax::law_file_write_read(streams, epochs);
    let all = syntax::payload_before(epochs, epochs.len() as int);
    assert(b.len() == base + all.len());
    assert(b.skip(base) =~= all);
    assert forall|k: int| 0 <= k < lists.len() implies all_findable(#[trigger] lists[k]) by {
        assert forall|i: int| 0 <= i < lists[k].len() implies (#[trigger] lists[k][i]).flags == 0
            && lists[k][i].payload.len() <= u32::MAX by {}
        lemma_epoch_findable(streams, epochs, lists[k], k);
    }
    assert(syntax::payload_before(epochs, 0).len() == 0);
    lemma_scan_all(b, base, epochs, lists, 0);
}

// ---------------------------------------------------------------------------------------------
// Frames

/// Video packets and no others.
pub open spec fn is_video() -> spec_fn(syntax::PacketModel) -> bool {
    |p: syntax::PacketModel| p.kind == PacketKind::VideoFrame
}

pub open spec fn no_starts(list: Seq<syntax::PacketModel>) -> bool {
    forall|i: int| 0 <= i < list.len() ==> (#[trigger] list[i]).kind != PacketKind::EpochStart
}

/// Two results one after the other.
pub open spec fn both(a: Result<Seq<Picture>, MediaError>, b: Result<Seq<Picture>, MediaError>) -> Result<
    Seq<Picture>,
    MediaError,
> {
    match a {
        Err(e) => Err(e),
        Ok(x) => match b {
            Err(e) => Err(e),
            Ok(y) => Ok(x + y),
        },
    }
}

/// What comes before the start of an epoch does not matter to what comes after it.
pub proof fn lemma_shown_apart(
    backend: Backend,
    a: Seq<syntax::PacketModel>,
    b: Seq<syntax::PacketModel>,
    refs: Seq<(u64, Picture)>,
)
    requires
        b.len() == 0 || b[0].kind == PacketKind::EpochStart,
    ensures
        decode::shown_frames(backend, a + b, refs) == both(
            decode::shown_frames(backend, a, refs),
            decode::shown_frames(backend, b, Seq::empty()),
        ),
    decreases a.len(),
{
    if a.len() == 0 {
        assert(a + b =~= b);
        match decode::shown_frames(backend, b, Seq::empty()) {
            Ok(y) => {
                assert(Seq::<Picture>::empty() + y =~= y);
            },
            Err(_) => {},
        }
    } else {
        let p = a[0];
        let rest = a.drop_first();
        assert((a + b)[0] == p);
        assert((a + b).drop_first() =~= rest + b);
        if p.kind == PacketKind::EpochStart {
            lemma_shown_apart(backend, rest, b, Seq::empty());
        } else if p.kind == PacketKind::VideoFrame {
            if let Ok((id, picture)) = decode::shown_frame(backend, p.payload, refs) {
                let next = history::extended(refs, id, picture);
                lemma_shown_apart(backend, rest, b, next);
                if let Ok(x) = decode::shown_frames(backend, rest, next) {
                    if let Ok(y) = decode::shown_frames(backend, b, Seq::empty()) {
                        assert(seq![picture] + (x + y) =~= (seq![picture] + x) + y);
                    }
                }
            }
        } else {
            lemma_shown_apart(backend, rest, b, refs);
        }
    }
}

pub proof fn lemma_filter_one(p: syntax::PacketModel)
    ensures
        seq![p].filter(is_video()) == if p.kind == PacketKind::VideoFrame {
            seq![p]
        } else {
            Seq::empty()
        },
{
    reveal_with_fuel(Seq::filter, 2);
    assert(seq![p].drop_last() =~= Seq::empty());
    assert(seq![p].filter(is_video()) =~= if p.kind == PacketKind::VideoFrame {
        seq![p]
    } else {
        Seq::empty()
    });
}

/// Only video packets are shown.
proof fn lemma_shown_video(
    backend: Backend,
    list: Seq<syntax::PacketModel>,
    refs: Seq<(u64, Picture)>,
)
    requires
        no_starts(list),
    ensures
        decode::shown_frames(backend, list, refs) == decode::shown_frames(
            backend,
            list.filter(is_video()),
            refs,
        ),
    decreases list.len(),
{
    reveal(Seq::filter);
    if list.len() > 0 {
        let p = list[0];
        let rest = list.drop_first();
        assert(list =~= seq![p] + rest);
        Seq::filter_distributes_over_add(seq![p], rest, is_video());
        lemma_filter_one(p);
        assert forall|i: int| 0 <= i < rest.len() implies (#[trigger] rest[i]).kind
            != PacketKind::EpochStart by {
            assert(rest[i] == list[i + 1]);
        }
        assert(p.kind != PacketKind::EpochStart);
        if p.kind == PacketKind::VideoFrame {
            let kept = seq![p] + rest.filter(is_video());
            assert(list.filter(is_video()) == kept);
            assert(kept[0] == p);
            assert(kept.drop_first() =~= rest.filter(is_video()));
            if let Ok((id, picture)) = decode::shown_frame(backend, p.payload, refs) {
                lemma_shown_video(backend, rest, history::extended(refs, id, picture));
            }
        } else {
            assert(list.filter(is_video()) =~= rest.filter(is_video()));
            lemma_shown_video(backend, rest, refs);
        }
    }
}

/// Interleaving keeps the video packets in order.
pub proof fn lemma_interleaved_video(
    video: Seq<syntax::PacketModel>,
    audio: Seq<syntax::PacketModel>,
)
    requires
        epoch::all_kind(video, PacketKind::VideoFrame),
        epoch::all_kind(audio, PacketKind::AudioFrame),
    ensures
        epoch::interleaved(video, audio).filter(is_video()) == video,
        no_starts(epoch::interleaved(video, audio)),
    decreases video.len() + audio.len(),
{
    reveal(Seq::filter);
    let all = epoch::interleaved(video, audio);
    if video.len() == 0 && audio.len() == 0 {
        assert(all.filter(is_video()) =~= video);
    } else {
        let audio_last = video.len() == 0 || (audio.len() > 0 && video.last().pts
            <= audio.last().pts);
        let (v, a) = if audio_last {
            (video, audio.drop_last())
        } else {
            (video.drop_last(), audio)
        };
        let last = if audio_last {
            audio.last()
        } else {
            video.last()
        };
        assert forall|i: int| 0 <= i < v.len() implies (#[trigger] v[i]).kind
            == PacketKind::VideoFrame by {
            assert(v[i] == video[i]);
        }
        assert forall|i: int| 0 <= i < a.len() implies (#[trigger] a[i]).kind
            == PacketKind::AudioFrame by {
            assert(a[i] == audio[i]);
        }
        lemma_interleaved_video(v, a);
        let rest = epoch::interleaved(v, a);
        assert(all =~= rest.push(last)) by {
            if video.len() == 0 {
                assert(audio =~= audio.drop_last().push(audio.last()));
            } else if audio.len() == 0 {
                assert(video =~= video.drop_last().push(video.last()));
                assert(rest =~= v);
            } else if a.len() == 0 || v.len() == 0 {
            }
        }
        assert(all.drop_last() =~= rest);
        assert(all.last() == last);
        if audio_last {
            assert(last.kind == PacketKind::AudioFrame) by {
                assert(audio[audio.len() - 1] == last);
            }
            assert(all.filter(is_video()) =~= video);
        } else {
            assert(last.kind == PacketKind::VideoFrame) by {
                assert(video[video.len() - 1] == last);
            }
            assert(video.drop_last().push(video.last()) =~= video);
            assert(all.filter(is_video()) =~= video);
        }
        assert forall|i: int| 0 <= i < all.len() implies (#[trigger] all[i]).kind
            != PacketKind::EpochStart by {
            if i < rest.len() {
                assert(all[i] == rest[i]);
            }
        }
    }
}

/// What a decoder asks of a packet by default.
pub open spec fn usual() -> crate::video::v1::syntax::Bounds {
    decoder::bounds(67_108_864, 8_388_608, None)
}

/// What a decoder shows of the frames from `i` to `end`.
#[verifier::opaque]
pub open spec fn rebuilt(
    frames: Seq<Picture>,
    i: int,
    end: int,
    refs: Seq<(u64, Picture)>,
    opt: EncodeOptions,
) -> Seq<Picture>
    decreases end - i,
{
    if i >= end {
        Seq::empty()
    } else {
        let shown = packets::reconstruction(
            frames[i],
            packets::considered(refs.reverse(), opt),
            opt,
        );
        seq![shown] + rebuilt(
            frames,
            i + 1,
            end,
            history::extended(refs, i as u64, shown),
            opt,
        )
    }
}

/// A decoder with the usual limits takes the packets of the frames from `i` to `end`.
#[verifier::opaque]
pub open spec fn decodable(
    frames: Seq<Picture>,
    i: int,
    end: int,
    refs: Seq<(u64, Picture)>,
    opt: EncodeOptions,
) -> bool
    decreases end - i,
{
    if i >= end {
        true
    } else {
        let considered = packets::considered(refs.reverse(), opt);
        let shown = packets::reconstruction(frames[i], considered, opt);
        &&& packets::admitted(frames[i], considered, opt, usual())
        &&& decodable(frames, i + 1, end, history::extended(refs, i as u64, shown), opt)
    }
}

/// Every id is less than this one.
pub open spec fn ids_below(refs: Seq<(u64, Picture)>, i: int) -> bool {
    forall|j: int| 0 <= j < refs.len() ==> (#[trigger] refs[j]).0 < i
}

/// One frame is shown as its encoder reconstructed it.
proof fn lemma_frame(
    id: u64,
    picture: Picture,
    refs: Seq<(u64, Picture)>,
    opt: reference::video_encoder::EncodeOptions,
)
    requires
        refs.len() <= 4,
        history::distinct(refs),
        ids_below(refs, id as int),
        encode::coded_frame(Backend::Production, id, picture, refs, opt) is Ok,
        packets::admitted(
            picture,
            packets::considered(refs.reverse(), media::production_options(opt)),
            media::production_options(opt),
            usual(),
        ),
    ensures
        ({
            let options = media::production_options(opt);
            let (packet, shown) = encode::coded_frame(
                Backend::Production,
                id,
                picture,
                refs,
                opt,
            )->Ok_0;
            &&& shown == packets::reconstruction(
                picture,
                packets::considered(refs.reverse(), options),
                options,
            )
            &&& decode::shown_frame(Backend::Production, packet, refs) == Ok::<
                (u64, Picture),
                MediaError,
            >((id, shown))
            &&& history::distinct(history::extended(refs, id, shown))
            &&& ids_below(history::extended(refs, id, shown), id + 1)
            &&& history::extended(refs, id, shown).len() <= 4
            &&& opt.qstep == 1 ==> shown == picture
        }),
{
    let options = media::production_options(opt);
    reveal(encode::coded_frame);
    reveal(decode::shown_frame);
    assert(!history::remembers(refs, id));
    history::law_encoder_decoder_agree(id, picture, refs, options, 67_108_864, usual());
}

proof fn lemma_run(
    frames: Seq<Picture>,
    i: int,
    end: int,
    refs: Seq<(u64, Picture)>,
    opt: reference::video_encoder::EncodeOptions,
    frame_us: int,
)
    requires
        0 <= i <= end <= frames.len() <= usize::MAX,
        refs.len() <= 4,
        history::distinct(refs),
        ids_below(refs, i),
        encode::coded_frames(Backend::Production, frames, i, end, refs, opt, frame_us) is Ok,
        decodable(frames, i, end, refs, media::production_options(opt)),
    ensures
        ({
            let list = encode::coded_frames(
                Backend::Production,
                frames,
                i,
                end,
                refs,
                opt,
                frame_us,
            )->Ok_0;
            let shown = rebuilt(frames, i, end, refs, media::production_options(opt));
            &&& decode::shown_frames(Backend::Production, list, refs) == Ok::<
                Seq<Picture>,
                MediaError,
            >(shown)
            &&& epoch::all_kind(list, PacketKind::VideoFrame)
            &&& forall|j: int| 0 <= j < list.len() ==> (#[trigger] list[j]).flags == 0
            &&& opt.qstep == 1 ==> shown == frames.subrange(i, end)
        }),
    decreases end - i,
{
    reveal(rebuilt);
    reveal(decodable);
    let list = encode::coded_frames(
        Backend::Production,
        frames,
        i,
        end,
        refs,
        opt,
        frame_us,
    )->Ok_0;
    if i < end {
        let id = i as u64;
        let (packet, shown) = encode::coded_frame(
            Backend::Production,
            id,
            frames[i],
            refs,
            opt,
        )->Ok_0;
        let next = history::extended(refs, id, shown);
        lemma_frame(id, frames[i], refs, opt);
        lemma_run(frames, i + 1, end, next, opt, frame_us);
        let rest = encode::coded_frames(
            Backend::Production,
            frames,
            i + 1,
            end,
            next,
            opt,
            frame_us,
        )->Ok_0;
        let first = epoch::video_packet(
            (i * frame_us) as u64,
            (frame_us % 0x1_0000_0000) as u32,
            packet,
        );
        assert(list == seq![first] + rest);
        assert(list[0] == first);
        assert(list.drop_first() =~= rest);
        assert forall|j: int| 0 <= j < list.len() implies (#[trigger] list[j]).flags == 0
            && list[j].kind == PacketKind::VideoFrame by {
            if j > 0 {
                assert(list[j] == rest[j - 1]);
            }
        }
        if opt.qstep == 1 {
            assert(seq![frames[i]] + frames.subrange(i + 1, end) =~= frames.subrange(i, end));
        }
    } else {
        assert(frames.subrange(i, end) =~= Seq::empty());
    }
}

// ---------------------------------------------------------------------------------------------
// Clips

/// The packets of epoch `k`, which goes from frame `start` to frame `end`.
#[verifier::opaque]
pub open spec fn clip_list(
    recipe: Recipe,
    clip: ClipModel,
    sound: Option<encode::Sound>,
    k: int,
    start: int,
    end: int,
) -> Seq<syntax::PacketModel> {
    let frame_us = media::frame_duration(clip.fps_n, clip.fps_d);
    let (pts, end_pts) = (start * frame_us, end * frame_us);
    let video = encode::coded_frames(
        recipe.backend,
        clip.frames,
        start,
        end,
        Seq::empty(),
        media::reference_options(recipe.preset, recipe.video_q),
        frame_us,
    )->Ok_0;
    let audio = encode::sound_between(recipe.backend, sound, pts, end_pts)->Ok_0;
    seq![
        epoch::start_packet(
            (k % 0x1_0000_0000) as u32,
            pts as u64,
            ((end_pts - pts) % 0x1_0000_0000) as u32,
        ),
    ] + epoch::interleaved(video, audio)
}

/// The packets of the epochs from `k` on.
pub open spec fn clip_lists(
    recipe: Recipe,
    clip: ClipModel,
    sound: Option<encode::Sound>,
    starts: Seq<int>,
) -> Seq<Seq<syntax::PacketModel>> {
    Seq::new(
        starts.len(),
        |k: int|
            clip_list(
                recipe,
                clip,
                sound,
                k,
                starts[k],
                encode::epoch_end(starts, k, clip.frames.len() as int),
            ),
    )
}

/// Coded samples make audio packets without flags.
pub proof fn lemma_audio_plain(
    backend: Backend,
    samples: Seq<i16>,
    from: int,
    end: int,
    opt: crate::audio::v1::EncodeOptions,
)
    requires
        encode::coded_audio(backend, samples, from, end, opt) is Ok,
    ensures
        ({
            let list = encode::coded_audio(backend, samples, from, end, opt)->Ok_0;
            &&& epoch::all_kind(list, PacketKind::AudioFrame)
            &&& forall|i: int| 0 <= i < list.len() ==> (#[trigger] list[i]).flags == 0
        }),
    decreases end - from,
{
    if from < end {
        let n = epoch::packet_frames(from, end);
        lemma_audio_plain(backend, samples, from + n, end, opt);
        let list = encode::coded_audio(backend, samples, from, end, opt)->Ok_0;
        let rest = encode::coded_audio(backend, samples, from + n, end, opt)->Ok_0;
        assert forall|i: int| 0 <= i < list.len() implies (#[trigger] list[i]).flags == 0
            && list[i].kind == PacketKind::AudioFrame by {
            if i > 0 {
                assert(list[i] == rest[i - 1]);
            }
        }
    }
}

/// Every packet of a list can be framed.
pub open spec fn frameable(list: Seq<syntax::PacketModel>) -> bool {
    forall|i: int|
        0 <= i < list.len() ==> (#[trigger] list[i]).flags == 0 && list[i].payload.len() <= u32::MAX
}

/// A start, and video and audio packets by time: the packets can be framed, and what is shown is
/// what the video packets show.
pub proof fn lemma_list(
    backend: Backend,
    head: syntax::PacketModel,
    video: Seq<syntax::PacketModel>,
    audio: Seq<syntax::PacketModel>,
    shown: Seq<Picture>,
)
    requires
        head.kind == PacketKind::EpochStart,
        head.flags == 0,
        head.payload.len() <= u32::MAX,
        epoch::all_kind(video, PacketKind::VideoFrame),
        epoch::all_kind(audio, PacketKind::AudioFrame),
        forall|i: int| 0 <= i < video.len() ==> (#[trigger] video[i]).flags == 0,
        forall|i: int| 0 <= i < audio.len() ==> (#[trigger] audio[i]).flags == 0,
        epoch::payloads_fit(epoch::interleaved(video, audio)),
        decode::shown_frames(backend, video, Seq::empty()) == Ok::<
            Seq<Picture>,
            MediaError,
        >(shown),
    ensures
        ({
            let inner = epoch::interleaved(video, audio);
            let list = seq![head] + inner;
            &&& frameable(list)
            &&& epoch::framed(list) == syntax::packet_bytes(head) + epoch::framed(inner)
            &&& decode::shown_frames(backend, list, Seq::empty()) == Ok::<
                Seq<Picture>,
                MediaError,
            >(shown)
        }),
{
    let inner = epoch::interleaved(video, audio);
    let list = seq![head] + inner;
    lemma_interleaved_video(video, audio);
    lemma_shown_video(backend, inner, Seq::empty());
    epoch::lemma_interleaved_flags(video, audio);
    assert(list[0] == head);
    assert(list.drop_first() =~= inner);
    epoch::lemma_framed_split(list);
    assert forall|i: int| 0 <= i < list.len() implies (#[trigger] list[i]).flags == 0
        && list[i].payload.len() <= u32::MAX by {
        if i > 0 {
            assert(list[i] == inner[i - 1]);
        }
    }
}

/// The audio packets of an epoch.
pub proof fn lemma_sound_plain(backend: Backend, sound: Option<encode::Sound>, pts: int, end_pts: int)
    requires
        encode::sound_between(backend, sound, pts, end_pts) is Ok,
    ensures
        ({
            let audio = encode::sound_between(backend, sound, pts, end_pts)->Ok_0;
            &&& epoch::all_kind(audio, PacketKind::AudioFrame)
            &&& forall|i: int| 0 <= i < audio.len() ==> (#[trigger] audio[i]).flags == 0
        }),
{
    if let Some(sound) = sound {
        let rate = sound.options.sample_rate as int;
        lemma_audio_plain(
            backend,
            sound.samples,
            pts * rate / 1_000_000,
            media::least(
                end_pts * rate / 1_000_000,
                sound.samples.len() as int / sound.options.channels as int,
            ),
            sound.options,
        );
    }
}

/// What an epoch is made of.
pub proof fn lemma_epoch_parts(
    recipe: Recipe,
    clip: ClipModel,
    sound: Option<encode::Sound>,
    k: int,
    start: int,
    end: int,
)
    requires
        encode::clip_epoch(recipe, clip, sound, k, start, end) is Ok,
    ensures
        ({
            let range = encode::clip_epoch(recipe, clip, sound, k, start, end)->Ok_0;
            let frame_us = media::frame_duration(clip.fps_n, clip.fps_d);
            let (pts, end_pts) = (start * frame_us, end * frame_us);
            let coded = encode::coded_frames(
                recipe.backend,
                clip.frames,
                start,
                end,
                Seq::empty(),
                media::reference_options(recipe.preset, recipe.video_q),
                frame_us,
            );
            let heard = encode::sound_between(recipe.backend, sound, pts, end_pts);
            let head = epoch::start_packet(
                (k % 0x1_0000_0000) as u32,
                pts as u64,
                ((end_pts - pts) % 0x1_0000_0000) as u32,
            );
            &&& coded is Ok
            &&& heard is Ok
            &&& recipe.backend == Backend::Production ==> epoch::payloads_fit(
                epoch::interleaved(coded->Ok_0, heard->Ok_0),
            )
            &&& range.bytes == syntax::packet_bytes(head) + epoch::framed(
                epoch::interleaved(coded->Ok_0, heard->Ok_0),
            )
            &&& clip_list(recipe, clip, sound, k, start, end) == seq![head] + epoch::interleaved(
                coded->Ok_0,
                heard->Ok_0,
            )
        }),
{
    reveal(encode::clip_epoch);
    reveal(clip_list);
}

/// An epoch holds its packets, and its video packets show what was coded.
proof fn lemma_epoch(
    recipe: Recipe,
    clip: ClipModel,
    sound: Option<encode::Sound>,
    k: int,
    start: int,
    end: int,
)
    requires
        recipe.backend == Backend::Production,
        0 <= start <= end <= clip.frames.len() <= usize::MAX,
        encode::clip_epoch(recipe, clip, sound, k, start, end) is Ok,
        decodable(
            clip.frames,
            start,
            end,
            Seq::empty(),
            crate::mux::preset_options(recipe.video_q, recipe.preset),
        ),
    ensures
        ({
            let range = encode::clip_epoch(recipe, clip, sound, k, start, end)->Ok_0;
            let list = clip_list(recipe, clip, sound, k, start, end);
            let shown = rebuilt(
                clip.frames,
                start,
                end,
                Seq::empty(),
                crate::mux::preset_options(recipe.video_q, recipe.preset),
            );
            &&& range.bytes == epoch::framed(list)
            &&& frameable(list)
            &&& list.len() > 0
            &&& list[0].kind == PacketKind::EpochStart
            &&& decode::shown_frames(Backend::Production, list, Seq::empty()) == Ok::<
                Seq<Picture>,
                MediaError,
            >(shown)
            &&& recipe.video_q == 1 ==> shown == clip.frames.subrange(start, end)
        }),
{
    media::law_presets_agree(recipe.preset, recipe.video_q);
    lemma_epoch_parts(recipe, clip, sound, k, start, end);
    let opt = media::reference_options(recipe.preset, recipe.video_q);
    let frame_us = media::frame_duration(clip.fps_n, clip.fps_d);
    let (pts, end_pts) = (start * frame_us, end * frame_us);
    let video = encode::coded_frames(
        Backend::Production,
        clip.frames,
        start,
        end,
        Seq::empty(),
        opt,
        frame_us,
    )->Ok_0;
    let audio = encode::sound_between(Backend::Production, sound, pts, end_pts)->Ok_0;
    lemma_run(clip.frames, start, end, Seq::empty(), opt, frame_us);
    lemma_sound_plain(Backend::Production, sound, pts, end_pts);
    let id = (k % 0x1_0000_0000) as u32;
    let head = epoch::start_packet(
        id,
        pts as u64,
        ((end_pts - pts) % 0x1_0000_0000) as u32,
    );
    crate::bytes::lemma_le_bytes_len(id as int, 4);
    lemma_list(
        Backend::Production,
        head,
        video,
        audio,
        rebuilt(clip.frames, start, end, Seq::empty(), media::production_options(opt)),
    );
    assert(clip_list(recipe, clip, sound, k, start, end)[0] == head);
}

/// What a decoder shows of the epochs from `k` on.
pub open spec fn shown_from(
    frames: Seq<Picture>,
    starts: Seq<int>,
    opt: EncodeOptions,
    k: int,
) -> Seq<Picture>
    decreases starts.len() - k,
{
    if k < 0 || k >= starts.len() {
        Seq::empty()
    } else {
        rebuilt(
            frames,
            starts[k],
            encode::epoch_end(starts, k, frames.len() as int),
            Seq::empty(),
            opt,
        ) + shown_from(frames, starts, opt, k + 1)
    }
}

/// Where epochs may start: in order, and within the clip.
pub open spec fn in_order(starts: Seq<int>, frames: int) -> bool {
    &&& starts.len() >= 1
    &&& starts[0] == 0
    &&& forall|i: int, j: int| 0 <= i < j < starts.len() ==> #[trigger] starts[i] < #[trigger] starts[j]
    &&& forall|i: int| 0 < i < starts.len() ==> #[trigger] starts[i] < frames
}

pub proof fn lemma_epochs(
    recipe: Recipe,
    clip: ClipModel,
    sound: Option<encode::Sound>,
    starts: Seq<int>,
    k: int,
)
    requires
        recipe.backend == Backend::Production,
        0 < clip.frames.len() <= usize::MAX,
        in_order(starts, clip.frames.len() as int),
        0 <= k <= starts.len(),
        encode::clip_epochs(recipe, clip, sound, starts, k) is Ok,
        forall|j: int|
            0 <= j < starts.len() ==> decodable(
                clip.frames,
                #[trigger] starts[j],
                encode::epoch_end(starts, j, clip.frames.len() as int),
                Seq::empty(),
                crate::mux::preset_options(recipe.video_q, recipe.preset),
            ),
    ensures
        ({
            let epochs = encode::clip_epochs(recipe, clip, sound, starts, k)->Ok_0;
            let lists = clip_lists(recipe, clip, sound, starts);
            let opt = crate::mux::preset_options(recipe.video_q, recipe.preset);
            &&& epochs.len() == starts.len() - k
            &&& forall|j: int|
                0 <= j < epochs.len() ==> (#[trigger] epochs[j]).bytes == epoch::framed(lists[k + j])
            &&& forall|j: int| k <= j < lists.len() ==> frameable(#[trigger] lists[j])
            &&& joined(lists, k).len() == 0 || joined(lists, k)[0].kind == PacketKind::EpochStart
            &&& decode::shown_frames(Backend::Production, joined(lists, k), Seq::empty()) == Ok::<
                Seq<Picture>,
                MediaError,
            >(shown_from(clip.frames, starts, opt, k))
            &&& recipe.video_q == 1 && k < starts.len() ==> shown_from(clip.frames, starts, opt, k)
                == clip.frames.skip(starts[k])
        }),
    decreases starts.len() - k,
{
    let epochs = encode::clip_epochs(recipe, clip, sound, starts, k)->Ok_0;
    let lists = clip_lists(recipe, clip, sound, starts);
    let opt = crate::mux::preset_options(recipe.video_q, recipe.preset);
    let total = clip.frames.len() as int;
    if k < starts.len() {
        let (start, end) = (starts[k], encode::epoch_end(starts, k, total));
        assert(0 <= start <= end <= total) by {
            if k > 0 {
                assert(starts[0] < starts[k]);
            }
        }
        assert(decodable(clip.frames, start, end, Seq::empty(), opt));
        lemma_epoch(recipe, clip, sound, k, start, end);
        lemma_epochs(recipe, clip, sound, starts, k + 1);
        let range = encode::clip_epoch(recipe, clip, sound, k, start, end)->Ok_0;
        let rest = encode::clip_epochs(recipe, clip, sound, starts, k + 1)->Ok_0;
        assert(epochs == seq![range] + rest);
        let list = lists[k];
        assert(list == clip_list(recipe, clip, sound, k, start, end));
        assert forall|j: int| 0 <= j < epochs.len() implies (#[trigger] epochs[j]).bytes
            == epoch::framed(lists[k + j]) by {
            if j > 0 {
                assert(epochs[j] == rest[j - 1]);
                assert(rest[j - 1].bytes == epoch::framed(lists[k + 1 + (j - 1)]));
            }
        }
        let tail = joined(lists, k + 1);
        lemma_shown_apart(Backend::Production, list, tail, Seq::empty());
        assert((list + tail)[0] == list[0]);
        if recipe.video_q == 1 {
            if k + 1 < starts.len() {
                assert(clip.frames.subrange(start, end) + clip.frames.skip(end)
                    =~= clip.frames.skip(start));
            } else {
                assert(clip.frames.subrange(start, end) + Seq::<Picture>::empty()
                    =~= clip.frames.skip(start));
            }
        }
    }
}

/// A decoder with the usual limits takes every packet of the clip.
pub open spec fn clip_decodable(recipe: Recipe, clip: ClipModel) -> bool {
    let starts = scene::starts(clip.frames, recipe.epoch_frames as int, clip.frames.len() as int);
    forall|j: int|
        0 <= j < starts.len() ==> decodable(
            clip.frames,
            #[trigger] starts[j],
            encode::epoch_end(starts, j, clip.frames.len() as int),
            Seq::empty(),
            crate::mux::preset_options(recipe.video_q, recipe.preset),
        )
}

/// The clip of a file that starts with these streams and holds packets that show this.
pub proof fn lemma_clip_of(b: Seq<u8>, streams: Seq<StreamDesc>, n: int, shown: Seq<Picture>)
    requires
        syntax::decoded_prefix(b) matches Ok((h, front, at)) && front.streams == streams && at == n,
        streams.len() > 0,
        streams[0].kind == StreamKind::Video,
        decode::scanned(b, n).1 is None,
        decode::shown_frames(Backend::Production, decode::scanned(b, n).0, Seq::empty()) == Ok::<
            Seq<Picture>,
            MediaError,
        >(shown),
    ensures
        decode::file_clip(Backend::Production, b) == Ok::<ClipModel, MediaError>(
            decode::clip_of(streams[0], shown),
        ),
{
}

/// The streams of a clip are in order.
pub proof fn lemma_streams_ok(clip: ClipModel, sound: Option<encode::Sound>)
    requires
        crate::container::v1::meta_ok(clip.meta0 as int),
    ensures
        ({
            let streams = encode::clip_streams(clip, sound);
            &&& 1 <= streams.len() <= 2
            &&& streams[0].kind == StreamKind::Video
            &&& forall|i: int| 0 <= i < streams.len() ==> syntax::stream_ok(#[trigger] streams[i])
        }),
{
}

/// A clip that was written with the production codecs is read back: the dimensions, the metadata,
/// the rate as its word has it, and for each frame what its encoder reconstructed. Without loss
/// that is the frames themselves.
pub proof fn law_clip_read_back(recipe: Recipe, clip: ClipModel, sound: Option<encode::Sound>)
    requires
        recipe.backend == Backend::Production,
        0 < clip.frames.len() <= usize::MAX,
        crate::container::v1::meta_ok(clip.meta0 as int),
        encode::clip_file(recipe, clip, sound) is Ok,
        clip_decodable(recipe, clip),
        syntax::file_base(
            2,
            scene::starts(
                clip.frames,
                recipe.epoch_frames as int,
                clip.frames.len() as int,
            ).len() as int,
        ) <= u32::MAX,
    ensures
        ({
            let file = encode::clip_file(recipe, clip, sound)->Ok_0;
            let starts = scene::starts(
                clip.frames,
                recipe.epoch_frames as int,
                clip.frames.len() as int,
            );
            let shown = shown_from(
                clip.frames,
                starts,
                crate::mux::preset_options(recipe.video_q, recipe.preset),
                0,
            );
            &&& decode::file_clip(Backend::Production, file) == Ok::<ClipModel, MediaError>(
                decode::clip_of(encode::clip_streams(clip, sound)[0], shown),
            )
            &&& recipe.video_q == 1 ==> shown == clip.frames
        }),
{
    let total = clip.frames.len() as int;
    let starts = scene::starts(clip.frames, recipe.epoch_frames as int, total);
    let streams = encode::clip_streams(clip, sound);
    let epochs = encode::clip_epochs(recipe, clip, sound, starts, 0)->Ok_0;
    let lists = clip_lists(recipe, clip, sound, starts);
    scene::law_starts(clip.frames, recipe.epoch_frames as int, total);
    lemma_epochs(recipe, clip, sound, starts, 0);
    assert(epochs_hold(epochs, lists)) by {
        assert forall|k: int| 0 <= k < epochs.len() implies (#[trigger] epochs[k]).bytes
            == epoch::framed(lists[k]) by {
            assert(epochs[k].bytes == epoch::framed(lists[0 + k]));
        }
    }
    assert forall|k: int, i: int|
        0 <= k < lists.len() && 0 <= i < lists[k].len() implies (#[trigger] lists[k][i]).flags == 0
        && lists[k][i].payload.len() <= u32::MAX by {
        assert(frameable(lists[k]));
    }
    lemma_streams_ok(clip, sound);
    law_file_packets(streams, epochs, lists);
    lemma_clip_of(
        syntax::file_bytes(streams, epochs),
        streams,
        syntax::file_base(streams.len() as int, epochs.len() as int),
        shown_from(
            clip.frames,
            starts,
            crate::mux::preset_options(recipe.video_q, recipe.preset),
            0,
        ),
    );
    if recipe.video_q == 1 {
        assert(clip.frames.skip(0) =~= clip.frames);
    }
}

/// Frames of up to some thirty thousand blocks fit the usual limits, whatever they show.
pub open spec fn small(picture: Picture) -> bool {
    263 * crate::video::v1::syntax::block_count(picture.width, picture.height) <= 8_388_608
}

proof fn lemma_small_run(
    frames: Seq<Picture>,
    i: int,
    end: int,
    refs: Seq<(u64, Picture)>,
    opt: reference::video_encoder::EncodeOptions,
    frame_us: int,
)
    requires
        0 <= i <= end <= frames.len(),
        encode::coded_frames(Backend::Production, frames, i, end, refs, opt, frame_us) is Ok,
        forall|j: int| 0 <= j < frames.len() ==> small(#[trigger] frames[j]),
    ensures
        decodable(frames, i, end, refs, media::production_options(opt)),
    decreases end - i,
{
    reveal(decodable);
    if i < end {
        let options = media::production_options(opt);
        let picture = frames[i];
        assert(small(picture));
        lemma_small_frame(i as u64, picture, refs, opt);
        let (packet, shown) = encode::coded_frame(
            Backend::Production,
            i as u64,
            picture,
            refs,
            opt,
        )->Ok_0;
        lemma_small_run(
            frames,
            i + 1,
            end,
            history::extended(refs, i as u64, shown),
            opt,
            frame_us,
        );
    }
}

proof fn lemma_small_frame(
    id: u64,
    picture: Picture,
    refs: Seq<(u64, Picture)>,
    opt: reference::video_encoder::EncodeOptions,
)
    requires
        encode::coded_frame(Backend::Production, id, picture, refs, opt) is Ok,
        small(picture),
    ensures
        ({
            let options = media::production_options(opt);
            let considered = packets::considered(refs.reverse(), options);
            &&& packets::admitted(picture, considered, options, usual())
            &&& (encode::coded_frame(Backend::Production, id, picture, refs, opt)->Ok_0).1
                == packets::reconstruction(picture, considered, options)
        }),
{
    reveal(encode::coded_frame);
    let options = media::production_options(opt);
    assert(picture.width * picture.height <= 67_108_864) by (nonlinear_arith)
        requires
            0 < picture.width <= 8192,
            0 < picture.height <= 8192,
    ;
    packets::law_token_ceiling(id, picture, refs.reverse(), options, usual());
}

proof fn lemma_small_epochs(
    recipe: Recipe,
    clip: ClipModel,
    sound: Option<encode::Sound>,
    starts: Seq<int>,
    k: int,
)
    requires
        recipe.backend == Backend::Production,
        clip.frames.len() > 0,
        in_order(starts, clip.frames.len() as int),
        0 <= k <= starts.len(),
        encode::clip_epochs(recipe, clip, sound, starts, k) is Ok,
        forall|j: int| 0 <= j < clip.frames.len() ==> small(#[trigger] clip.frames[j]),
    ensures
        forall|j: int|
            k <= j < starts.len() ==> decodable(
                clip.frames,
                #[trigger] starts[j],
                encode::epoch_end(starts, j, clip.frames.len() as int),
                Seq::empty(),
                crate::mux::preset_options(recipe.video_q, recipe.preset),
            ),
    decreases starts.len() - k,
{
    let total = clip.frames.len() as int;
    if k < starts.len() {
        let (start, end) = (starts[k], encode::epoch_end(starts, k, total));
        assert(0 <= start <= end <= total) by {
            if k > 0 {
                assert(starts[0] < starts[k]);
            }
        }
        lemma_epoch_parts(recipe, clip, sound, k, start, end);
        media::law_presets_agree(recipe.preset, recipe.video_q);
        lemma_small_run(
            clip.frames,
            start,
            end,
            Seq::empty(),
            media::reference_options(recipe.preset, recipe.video_q),
            media::frame_duration(clip.fps_n, clip.fps_d),
        );
        lemma_small_epochs(recipe, clip, sound, starts, k + 1);
    }
}

/// A clip of such frames, once it is written, can be decoded with the usual limits.
pub proof fn law_small_clips_decodable(
    recipe: Recipe,
    clip: ClipModel,
    sound: Option<encode::Sound>,
)
    requires
        recipe.backend == Backend::Production,
        clip.frames.len() > 0,
        encode::clip_file(recipe, clip, sound) is Ok,
        forall|j: int| 0 <= j < clip.frames.len() ==> small(#[trigger] clip.frames[j]),
    ensures
        clip_decodable(recipe, clip),
{
    let total = clip.frames.len() as int;
    let starts = scene::starts(clip.frames, recipe.epoch_frames as int, total);
    scene::law_starts(clip.frames, recipe.epoch_frames as int, total);
    lemma_small_epochs(recipe, clip, sound, starts, 0);
}

} // verus!
