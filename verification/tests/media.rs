//! Clips, files, and the ways between them.
use avelune::audio::v1::AudioError;
use avelune::container::v1::{
    build_file, encode_packet, parse_file_prefix, ChromaLocation, ColorMatrix, ColorPrimaries,
    ColorTransfer, ContainerError, EpochIndex, Packet, PacketKind, StreamDesc, StreamKind,
    VideoMeta, TIMEBASE,
};
use avelune::media::decode::{all_packets, decode_audio_samples, decode_video_frames};
use avelune::media::encode::{encode_audio, encode_av, Recipe, Soundtrack};
use avelune::media::examine::{
    codec_cases, index_fits, list_frames, verify_video_with_reference_decoder, CodecCase,
};
use avelune::media::mutation::{flip_bit, next_number};
use avelune::media::pcm::{bytes_from_samples, samples_from_bytes};
use avelune::media::probe::{merge_video_meta, probe_video_meta};
use avelune::media::reindex::reindex_bytes;
use avelune::media::scene::{epoch_starts, scene_cut};
use avelune::media::vectors::make_vectors;
use avelune::media::y4m::{emit_y4m, parse_y4m, Y4mError};
use avelune::media::{
    default_epoch_frames, fps_flags, fps_from_flags, preset, prod_voptions, Backend, Clip,
    MediaError,
};
use avelune::reference::frame::Frame420;
use avelune::video::v1::{EncoderPreset, VideoError};

const BOTH: [Backend; 2] = [Backend::Production, Backend::Reference];

fn frame(w: u32, h: u32, seed: u32) -> Frame420 {
    let luma = (w * h) as usize;
    Frame420 {
        width: w,
        height: h,
        y: (0..luma).map(|i| (i as u32 * 5 + seed * 3) as u8).collect(),
        u: vec![(100 + seed) as u8; luma / 4],
        v: vec![(150 + seed) as u8; luma / 4],
    }
}

fn flat(w: u32, h: u32, v: u8) -> Frame420 {
    let luma = (w * h) as usize;
    Frame420 {
        width: w,
        height: h,
        y: vec![v; luma],
        u: vec![128; luma / 4],
        v: vec![128; luma / 4],
    }
}

fn clip(n: u32) -> Clip {
    Clip {
        width: 16,
        height: 8,
        fps_n: 25,
        fps_d: 1,
        meta0: 0,
        frames: (0..n).map(|i| frame(16, 8, i)).collect(),
    }
}

fn recipe(backend: Backend) -> Recipe {
    Recipe {
        backend,
        preset: EncoderPreset::Quality,
        video_q: 1,
        audio_q: 1,
        epoch_frames: 2,
    }
}

fn samples(n: usize) -> Vec<i16> {
    (0..n).map(|i| ((i * 37) % 2001) as i16 - 1000).collect()
}

#[test]
fn frame_rates_are_packed_and_unpacked() {
    assert_eq!(fps_flags(30000, 1001), (30000 << 16) | 1001);
    assert_eq!(fps_flags(70000, 99999), 0xffff_ffff);
    assert_eq!(fps_from_flags((30000 << 16) | 1001), (30000, 1001));
    assert_eq!(fps_from_flags(0), (1, 1));
    assert_eq!(default_epoch_frames(30, 1), 60);
    assert_eq!(default_epoch_frames(30000, 1001), 58);
    assert_eq!(default_epoch_frames(0, 0), 1);
}

#[test]
fn presets_are_the_same_for_both_encoders() {
    for (name, radius, refs) in [
        (EncoderPreset::Fast, 2, 1),
        (EncoderPreset::Balanced, 4, 1),
        (EncoderPreset::Quality, 5, 4),
    ] {
        let v = preset(name, 7);
        assert_eq!((v.qstep, v.motion_radius, v.max_refs), (7, radius, refs));
        assert_eq!(prod_voptions(v).preset, name);
        assert_eq!(prod_voptions(v).motion_radius, radius);
    }
}

#[test]
fn scenes_are_cut_where_luma_jumps() {
    assert!(!scene_cut(&flat(16, 8, 10), &flat(16, 8, 58)));
    assert!(scene_cut(&flat(16, 8, 10), &flat(16, 8, 59)));
    assert!(scene_cut(&flat(16, 8, 200), &flat(16, 8, 151)));
    let frames = vec![
        flat(16, 8, 10),
        flat(16, 8, 12),
        flat(16, 8, 200),
        flat(16, 8, 200),
        flat(16, 8, 201),
        flat(16, 8, 202),
    ];
    assert_eq!(epoch_starts(&frames, 4), vec![0, 2, 4]);
    assert_eq!(epoch_starts(&frames, 100), vec![0, 2]);
    assert_eq!(epoch_starts(&frames, 1), vec![0, 1, 2, 3, 4, 5]);
    assert_eq!(epoch_starts(&Vec::new(), 1), vec![0]);
}

#[test]
fn clips_come_back_from_their_files() {
    let source = clip(5);
    for backend in BOTH {
        let encoded = encode_av(&source, None, recipe(backend)).unwrap();
        assert_eq!(encoded.epochs, 3);
        let (_, front, _) = parse_file_prefix(&encoded.file).unwrap();
        assert_eq!(front.streams.len(), 1);
        assert_eq!(front.streams[0].flags, (25 << 16) | 1);
        assert_eq!(front.epochs.len(), 3);
        assert_eq!(front.epochs[1].pts, 80_000);
        assert_eq!(front.epochs[2].duration, 40_000);
        for reader in BOTH {
            assert_eq!(decode_video_frames(&encoded.file, reader).unwrap(), source);
            assert_eq!(decode_audio_samples(&encoded.file, reader), Ok(None));
        }
        assert_eq!(verify_video_with_reference_decoder(&encoded.file), Ok(()));
    }
}

#[test]
fn soundtracks_come_back_from_their_files() {
    let source = clip(5);
    // 200 ms of frames; 12 000 sample frames are 250 ms, so the last 2 400 have no frame to go with.
    let pcm = samples(24_000);
    for backend in BOTH {
        let track = Soundtrack {
            samples: &pcm,
            channels: 2,
            rate: 48_000,
        };
        let encoded = encode_av(&source, Some(track), recipe(backend)).unwrap();
        for reader in BOTH {
            let (rate, channels, heard) =
                decode_audio_samples(&encoded.file, reader).unwrap().unwrap();
            assert_eq!((rate, channels), (48_000, 2));
            assert_eq!(heard, pcm[..19_200].to_vec());
            assert_eq!(decode_video_frames(&encoded.file, reader).unwrap(), source);
        }
    }
}

#[test]
fn packets_of_an_epoch_come_by_time() {
    let pcm = samples(8_000);
    let track = Soundtrack {
        samples: &pcm,
        channels: 2,
        rate: 48_000,
    };
    let mut r = recipe(Backend::Production);
    r.epoch_frames = 100;
    let encoded = encode_av(&clip(3), Some(track), r).unwrap();
    let (_, packets, _) = all_packets(&encoded.file).unwrap();
    assert_eq!(packets[0].kind, PacketKind::EpochStart);
    let order: Vec<(u64, PacketKind)> = packets[1..].iter().map(|p| (p.pts, p.kind)).collect();
    assert_eq!(
        order,
        vec![
            (0, PacketKind::VideoFrame),
            (0, PacketKind::AudioFrame),
            (20_000, PacketKind::AudioFrame),
            (40_000, PacketKind::VideoFrame),
            (40_000, PacketKind::AudioFrame),
            (60_000, PacketKind::AudioFrame),
            (80_000, PacketKind::VideoFrame),
            (80_000, PacketKind::AudioFrame),
        ]
    );
}

#[test]
fn lossy_clips_decode_alike() {
    for backend in BOTH {
        let mut r = recipe(backend);
        r.video_q = 96;
        let encoded = encode_av(&clip(4), None, r).unwrap();
        let a = decode_video_frames(&encoded.file, Backend::Production).unwrap();
        let b = decode_video_frames(&encoded.file, Backend::Reference).unwrap();
        assert_eq!(a, b);
        assert_eq!(a.frames.len(), 4);
    }
}

#[test]
fn samples_alone_make_a_file() {
    let pcm = samples(2 * 100_000);
    for backend in BOTH {
        let file = encode_audio(&pcm, 1, 1, backend).unwrap();
        let (_, front, _) = parse_file_prefix(&file).unwrap();
        assert_eq!(front.epochs.len(), 3);
        assert_eq!(front.epochs[1].pts, 1_000_000);
        assert_eq!(front.epochs[2].duration, 83_333);
        assert_eq!(front.streams[0].id, 2);
        for reader in BOTH {
            assert_eq!(
                decode_audio_samples(&file, reader),
                Ok(Some((48_000, 2, pcm.clone())))
            );
            assert_eq!(decode_video_frames(&file, reader), Err(MediaError::NoVideo));
        }
        // An epoch of no seconds lasts one second.
        assert_eq!(encode_audio(&pcm, 1, 0, backend).unwrap(), file);
    }
    let empty = encode_audio(&[], 1, 2, Backend::Production).unwrap();
    assert_eq!(
        decode_audio_samples(&empty, Backend::Production),
        Ok(Some((0, 0, Vec::new())))
    );
}

#[test]
fn encoding_errors_are_told() {
    let r = recipe(Backend::Production);
    let mut none = r;
    none.epoch_frames = 0;
    assert_eq!(
        encode_av(&clip(1), None, none).err(),
        Some(MediaError::EpochLength)
    );
    let mut slow = clip(3);
    slow.fps_n = 0;
    slow.fps_d = 4_294_967_295;
    slow.frames = vec![flat(2, 2, 0); 5000];
    let mut long = r;
    long.epoch_frames = 10_000;
    assert_eq!(
        encode_av(&slow, None, long).err(),
        Some(MediaError::Timestamp)
    );
    let mut odd = clip(1);
    odd.frames[0].width = 15;
    assert_eq!(
        encode_av(&odd, None, r).err(),
        Some(MediaError::Conversion(VideoError::BadDimensions))
    );
    let mut short = clip(1);
    short.frames[0].u.pop();
    assert_eq!(
        encode_av(&short, None, r).err(),
        Some(MediaError::Conversion(VideoError::PlaneLength))
    );
    assert_eq!(
        encode_av(&short, None, recipe(Backend::Reference)).err(),
        Some(MediaError::VideoEncode(0, VideoError::PlaneLength))
    );
    for backend in BOTH {
        let mut coarse = recipe(backend);
        coarse.video_q = 0;
        assert_eq!(
            encode_av(&clip(1), None, coarse).err(),
            Some(MediaError::VideoEncode(0, VideoError::BadQuantizer))
        );
        assert_eq!(
            encode_audio(&samples(200), 0, 1, backend).err(),
            Some(MediaError::AudioEncode(AudioError::BadQuantizer))
        );
    }
}

fn stream(id: u16, kind: StreamKind) -> StreamDesc {
    StreamDesc {
        id,
        kind,
        codec: 1,
        timescale: TIMEBASE,
        param0: 2,
        param1: 2,
        flags: if kind == StreamKind::Video { 0x1e_0001 } else { 0 },
        meta0: 0,
    }
}

fn packet(kind: PacketKind, stream_id: u16, payload: Vec<u8>) -> Packet {
    Packet {
        kind,
        flags: 0,
        stream_id,
        pts: 5,
        duration: 7,
        payload,
    }
}

fn file_of(streams: Vec<StreamDesc>, packets: &[Packet]) -> Vec<u8> {
    let mut bytes = Vec::new();
    for p in packets {
        encode_packet(p, &mut bytes);
    }
    build_file(streams, vec![(0, 0, 1, bytes)])
}

#[test]
fn reading_errors_are_told() {
    for reader in BOTH {
        assert_eq!(
            decode_video_frames(&[], reader),
            Err(MediaError::Prefix(ContainerError::UnexpectedEof))
        );
        assert_eq!(
            decode_audio_samples(&[], reader),
            Err(MediaError::Prefix(ContainerError::UnexpectedEof))
        );
    }
    assert_eq!(
        all_packets(&[]).err(),
        Some(MediaError::Prefix(ContainerError::UnexpectedEof))
    );
    let start = packet(PacketKind::EpochStart, 0, vec![0; 4]);
    let broken = file_of(
        vec![stream(1, StreamKind::Video), stream(2, StreamKind::Audio)],
        &[
            start,
            packet(PacketKind::VideoFrame, 1, vec![1, 2, 3]),
            packet(PacketKind::AudioFrame, 2, vec![1, 2, 3]),
        ],
    );
    assert_eq!(
        decode_video_frames(&broken, Backend::Production),
        Err(MediaError::VideoDecode(VideoError::UnexpectedEof))
    );
    assert_eq!(
        decode_video_frames(&broken, Backend::Reference),
        Err(MediaError::ReferenceDecode(
            avelune::reference::video_decoder::Error::UnexpectedEof
        ))
    );
    for reader in BOTH {
        assert_eq!(
            decode_audio_samples(&broken, reader),
            Err(MediaError::AudioDecode(AudioError::UnexpectedEof))
        );
    }
    assert_eq!(
        verify_video_with_reference_decoder(&broken),
        Err(MediaError::VideoDecode(VideoError::UnexpectedEof))
    );
    assert!(matches!(
        codec_cases(&broken),
        Err(MediaError::ReferenceDecode(_))
    ));

    let mut cut = encode_av(&clip(2), None, recipe(Backend::Production))
        .unwrap()
        .file;
    let (_, _, prefix) = parse_file_prefix(&cut).unwrap();
    cut.truncate(prefix + 40);
    let found = Err(MediaError::PacketAt(prefix + 36, ContainerError::UnexpectedEof));
    assert_eq!(decode_video_frames(&cut, Backend::Production), found);
    assert_eq!(decode_video_frames(&cut, Backend::Reference), found);
}

#[test]
fn audio_formats_may_not_change() {
    let options = |rate| avelune::audio::v1::EncodeOptions {
        sample_rate: rate,
        channels: 1,
        qstep: 1,
        mid_side: false,
    };
    let a = avelune::audio::v1::encode(&[1, 2, 3], options(8000)).unwrap();
    let b = avelune::audio::v1::encode(&[4, 5], options(16000)).unwrap();
    let start = || packet(PacketKind::EpochStart, 0, vec![0; 4]);
    let changed = file_of(
        vec![stream(2, StreamKind::Audio)],
        &[
            start(),
            packet(PacketKind::AudioFrame, 2, a.clone()),
            packet(PacketKind::AudioFrame, 2, b),
        ],
    );
    let same = file_of(
        vec![stream(2, StreamKind::Audio)],
        &[
            start(),
            packet(PacketKind::AudioFrame, 2, a.clone()),
            packet(PacketKind::Metadata, 0, vec![9]),
            packet(PacketKind::AudioFrame, 2, a),
        ],
    );
    for reader in BOTH {
        assert_eq!(
            decode_audio_samples(&changed, reader),
            Err(MediaError::AudioFormat)
        );
        assert_eq!(
            decode_audio_samples(&same, reader),
            Ok(Some((8000, 1, vec![1, 2, 3, 1, 2, 3])))
        );
    }
}

#[test]
fn frames_are_listed() {
    let encoded = encode_av(&clip(3), None, recipe(Backend::Production)).unwrap();
    let list = list_frames(&encoded.file).unwrap();
    assert_eq!(list.len(), 3);
    assert_eq!(
        list.iter().map(|f| (f.id, f.pts, f.qstep)).collect::<Vec<_>>(),
        vec![(0, 0, 1), (1, 40_000, 1), (2, 80_000, 1)]
    );
    assert_eq!(list[0].references, 0);
    assert_eq!(list[2].references, 0);
    let (_, packets, _) = all_packets(&encoded.file).unwrap();
    assert_eq!(list[0].size, packets[1].payload.len());
    assert!(list_frames(&[]).is_err());
    let e = EpochIndex {
        id: 0,
        pts: 0,
        offset: 10,
        len: 5,
        duration: 1,
    };
    assert!(index_fits(&e, 15));
    assert!(!index_fits(&e, 14));
    let far = EpochIndex {
        offset: u64::MAX,
        ..e
    };
    assert!(!index_fits(&far, u64::MAX));
}

#[test]
fn codec_packets_come_with_their_references() {
    let pcm = samples(2_000);
    let track = Soundtrack {
        samples: &pcm,
        channels: 2,
        rate: 48_000,
    };
    let encoded = encode_av(&clip(3), Some(track), recipe(Backend::Production)).unwrap();
    let cases = codec_cases(&encoded.file).unwrap();
    let shapes: Vec<Option<usize>> = cases
        .iter()
        .map(|c| match c {
            CodecCase::Video { references, .. } => Some(references.len()),
            CodecCase::Audio { .. } => None,
        })
        .collect();
    assert_eq!(shapes, vec![Some(0), None, None, Some(1), Some(0)]);
}

#[test]
fn an_index_is_made_anew() {
    let pcm = samples(8_000);
    let track = Soundtrack {
        samples: &pcm,
        channels: 2,
        rate: 48_000,
    };
    let file = encode_av(&clip(5), Some(track), recipe(Backend::Production))
        .unwrap()
        .file;
    for repair in [false, true] {
        let made = reindex_bytes(&file, repair).unwrap();
        assert_eq!(made.file, file);
        assert!(made.skipped.is_empty());
    }
    // The same packets behind another index.
    let (_, front, prefix) = parse_file_prefix(&file).unwrap();
    let lumped = build_file(front.streams, vec![(99, 1, 2, file[prefix..].to_vec())]);
    assert_ne!(lumped, file);
    assert_eq!(reindex_bytes(&lumped, false).unwrap().file, file);
}

#[test]
fn damage_is_skipped_by_repair_alone() {
    let mut file = encode_av(&clip(4), None, recipe(Backend::Production))
        .unwrap()
        .file;
    let (_, front, prefix) = parse_file_prefix(&file).unwrap();
    // The first video packet of the first epoch.
    file[prefix + 36 + 28] ^= 1;
    assert_eq!(
        reindex_bytes(&file, false).err(),
        Some(MediaError::PacketAt(
            prefix + 36,
            ContainerError::PayloadChecksum
        ))
    );
    let made = reindex_bytes(&file, true).unwrap();
    assert_eq!(made.skipped, vec![ContainerError::PayloadChecksum]);
    let (_, repaired, _) = parse_file_prefix(&made.file).unwrap();
    assert_eq!(repaired.epochs.len(), 2);
    assert!(repaired.epochs[0].len < front.epochs[0].len);
    assert_eq!(repaired.epochs[1].len, front.epochs[1].len);

    assert_eq!(
        reindex_bytes(&file[..prefix], true).err(),
        Some(MediaError::NothingRecovered)
    );
    assert_eq!(
        reindex_bytes(&file[..10], true).err(),
        Some(MediaError::Prefix(ContainerError::UnexpectedEof))
    );
}

#[test]
fn packets_without_a_start_make_an_epoch() {
    let file = file_of(
        vec![stream(1, StreamKind::Video)],
        &[
            packet(PacketKind::Metadata, 0, vec![1]),
            packet(PacketKind::EpochStart, 0, vec![7]),
            packet(PacketKind::EpochStart, 0, vec![4, 1, 0, 0, 9]),
        ],
    );
    let made = reindex_bytes(&file, false).unwrap();
    let (_, front, _) = parse_file_prefix(&made.file).unwrap();
    let ids: Vec<(u32, u64, u32)> = front
        .epochs
        .iter()
        .map(|e| (e.id, e.pts, e.duration))
        .collect();
    assert_eq!(ids, vec![(0, 5, 0), (1, 5, 7), (260, 5, 7)]);
}

fn y4m(header: &str, frames: &[&[u8]]) -> Vec<u8> {
    let mut b = header.as_bytes().to_vec();
    b.push(b'\n');
    for f in frames {
        b.extend_from_slice(b"FRAME Ixyz\n");
        b.extend_from_slice(f);
    }
    b
}

#[test]
fn y4m_is_read() {
    let b = y4m(
        "YUV4MPEG2 W4 H2 F30000:1001 Ip A1:1 C420mpeg2 XCOLORRANGE=fUlL",
        &[
            &[1, 2, 3, 4, 5, 6, 7, 8, 9, 10, 11, 12],
            &[21, 22, 23, 24, 25, 26, 27, 28, 29, 30, 31, 32],
        ],
    );
    let c = parse_y4m(&b).unwrap();
    assert_eq!((c.width, c.height, c.fps_n, c.fps_d), (4, 2, 30000, 1001));
    assert_eq!(c.meta0, (1 << 12) | (1 << 13));
    assert_eq!(c.frames.len(), 2);
    assert_eq!(c.frames[0].y, vec![1, 2, 3, 4, 5, 6, 7, 8]);
    assert_eq!(c.frames[0].u, vec![9, 10]);
    assert_eq!(c.frames[1].v, vec![31, 32]);

    let plain = parse_y4m(b"YUV4MPEG2 W+4 H002\n").unwrap();
    assert_eq!((plain.width, plain.height), (4, 2));
    assert_eq!((plain.fps_n, plain.fps_d, plain.meta0), (30, 1, 0));
    assert_eq!(parse_y4m(b"YUV4MPEG2 W4 H2 F25\n").unwrap().fps_d, 1);
    assert_eq!(parse_y4m(b"YUV4MPEG2 W4 H2 F25:2:9\n").unwrap().fps_d, 2);
    assert_eq!(
        parse_y4m(b"YUV4MPEG2 W4 H2 C420jpeg\n").unwrap().meta0,
        2 << 13
    );
    assert_eq!(
        parse_y4m(b"YUV4MPEG2 W4 H2 C420paldv\n").unwrap().meta0,
        2 << 13
    );
    // Any white space of Unicode parts words.
    let spaced = parse_y4m("YUV4MPEG2 W4\u{a0}H2\u{3000}F50:1\n".as_bytes()).unwrap();
    assert_eq!((spaced.width, spaced.height, spaced.fps_n), (4, 2, 50));
}

#[test]
fn y4m_errors_are_told() {
    let error = |b: &[u8]| parse_y4m(b).err();
    assert_eq!(error(b"YUV4MPEG2 W4 H2"), Some(Y4mError::MissingHeader));
    assert_eq!(error(b"YUV4MPEG2 \xff\n"), Some(Y4mError::Utf8));
    assert_eq!(error(b"YUV4MPEG2\tW4 H2\n"), Some(Y4mError::Signature));
    assert_eq!(error(b"YUV4MPEG2 W4x H2\n"), Some(Y4mError::Width));
    assert_eq!(error(b"YUV4MPEG2 W H2\n"), Some(Y4mError::Width));
    assert_eq!(error(b"YUV4MPEG2 W4 H-2\n"), Some(Y4mError::Height));
    assert_eq!(error(b"YUV4MPEG2 W4 H4294967296\n"), Some(Y4mError::Height));
    assert_eq!(error(b"YUV4MPEG2 W4 H2 F30:\n"), Some(Y4mError::FrameRate));
    assert_eq!(error(b"YUV4MPEG2 W4 H2 F:1\n"), Some(Y4mError::FrameRate));
    assert_eq!(
        error(b"YUV4MPEG2 C444 W4\n"),
        Some(Y4mError::Chroma(vec!['4', '4', '4']))
    );
    assert_eq!(error(b"YUV4MPEG2 H2\n"), Some(Y4mError::NoWidth));
    assert_eq!(error(b"YUV4MPEG2 W2\n"), Some(Y4mError::NoHeight));
    assert_eq!(error(b"YUV4MPEG2 W4 H3\n"), Some(Y4mError::OddDimensions));
    assert_eq!(
        error(b"YUV4MPEG2 W2 H2\nFRAM\n"),
        Some(Y4mError::ExpectedFrame(16))
    );
    assert_eq!(
        error(b"YUV4MPEG2 W2 H2\nFRAME"),
        Some(Y4mError::TruncatedFrameHeader)
    );
    assert_eq!(
        error(b"YUV4MPEG2 W2 H2\nFRAME\n12345"),
        Some(Y4mError::TruncatedFrame)
    );
    assert_eq!(
        error(b"YUV4MPEG2 W4294967294 H4294967294\nFRAME\n12345"),
        Some(Y4mError::TruncatedFrame)
    );
}

#[test]
fn y4m_is_written() {
    let mut c = Clip {
        width: 2,
        height: 2,
        fps_n: 30000,
        fps_d: 1001,
        meta0: 1 << 13,
        frames: vec![flat(2, 2, b'Y')],
    };
    c.frames[0].u = vec![b'U'];
    c.frames[0].v = vec![b'V'];
    assert_eq!(
        emit_y4m(&c),
        b"YUV4MPEG2 W2 H2 F30000:1001 Ip A1:1 C420mpeg2 XCOLORRANGE=LIMITED\nFRAME\nYYYYUV".to_vec()
    );
    assert_eq!(parse_y4m(&emit_y4m(&c)).unwrap(), c);
    c.meta0 = 1 << 12;
    assert_eq!(
        emit_y4m(&c),
        b"YUV4MPEG2 W2 H2 F30000:1001 Ip A1:1 C420jpeg XCOLORRANGE=FULL\nFRAME\nYYYYUV".to_vec()
    );
    // Chroma that lies nowhere in particular is read as lying in the centre.
    let read = parse_y4m(&emit_y4m(&c)).unwrap();
    assert_eq!(read.meta0, (1 << 12) | (2 << 13));
    assert_eq!(read.frames, c.frames);
    // A word that is no metadata is written as plain metadata.
    c.meta0 = u32::MAX;
    assert!(emit_y4m(&c).starts_with(b"YUV4MPEG2 W2 H2 F30000:1001 Ip A1:1 C420jpeg XCOLORRANGE=LIMITED\n"));
}

#[test]
fn metadata_is_probed_and_merged() {
    let text = "color_range=pc\r\ncolor_space=bt2020nc\ncolor_transfer=smpte2084\nnothing\ncolor_primaries=bt2020\nchroma_location=center\nother=1";
    let m = VideoMeta::unpack(probe_video_meta(text)).unwrap();
    assert!(m.full_range);
    assert_eq!(m.matrix, ColorMatrix::Bt2020Ncl);
    assert_eq!(m.transfer, ColorTransfer::Pq);
    assert_eq!(m.primaries, ColorPrimaries::Bt2020);
    assert_eq!(m.chroma, ChromaLocation::Center);
    assert_eq!(probe_video_meta(""), 0);
    assert_eq!(probe_video_meta("color_space=unknown\n"), 0);
    for (value, matrix) in [
        ("bt709", ColorMatrix::Bt709),
        ("smpte170m", ColorMatrix::Bt601),
        ("bt470bg", ColorMatrix::Bt601),
    ] {
        let v = probe_video_meta(&format!("color_space={value}\n"));
        assert_eq!(VideoMeta::unpack(v).unwrap().matrix, matrix);
    }
    for (value, transfer) in [
        ("bt709", ColorTransfer::Bt709),
        ("iec61966-2-1", ColorTransfer::Srgb),
        ("arib-std-b67", ColorTransfer::Hlg),
    ] {
        let v = probe_video_meta(&format!("color_transfer={value}"));
        assert_eq!(VideoMeta::unpack(v).unwrap().transfer, transfer);
    }

    let left = 1 << 13;
    assert_eq!(merge_video_meta(0, left), left);
    let probed = probe_video_meta("color_space=bt709\n");
    assert_eq!(merge_video_meta(probed, left), probed + left);
    let center = probe_video_meta("chroma_location=center\n");
    assert_eq!(merge_video_meta(center, left), center);
}

#[test]
fn samples_and_bytes_are_one() {
    assert_eq!(
        samples_from_bytes(&[0x34, 0x12, 0xff, 0xff, 0, 0x80, 9]),
        vec![0x1234, -1, -32768]
    );
    assert_eq!(bytes_from_samples(&[0x1234, -2, 32767]), vec![0x34, 0x12, 0xfe, 0xff, 0xff, 0x7f]);
    let all = samples(999);
    assert_eq!(samples_from_bytes(&bytes_from_samples(&all)), all);
}

#[test]
fn damage_can_be_repeated() {
    assert_eq!(next_number(1), 33153);
    let mut x: u64 = 0x9e37_79b9_7f4a_7c15;
    x ^= x << 7;
    x ^= x >> 9;
    x ^= x << 8;
    assert_eq!(next_number(0x9e37_79b9_7f4a_7c15), x);
    assert_eq!(flip_bit(&[0, 0, 0], 4, 8 + 3), vec![0, 8, 0]);
    assert_eq!(flip_bit(&[], 4, 3), Vec::<u8>::new());
}

#[test]
fn vectors_hold_together() {
    let v = make_vectors().unwrap();
    let source = parse_y4m(&v.video_lossless_y4m).unwrap();
    assert_eq!(source.frames.len(), 4);
    assert_eq!((source.width, source.height), (32, 24));
    assert_eq!(source.frames[0].y[33], 22);
    assert_eq!(source.frames[1].y[33], 13);
    assert_eq!(source.frames[3].y[9], 160);
    for reader in BOTH {
        let clip = decode_video_frames(&v.video_lossless, reader).unwrap();
        assert_eq!(clip.frames, source.frames);
        let lossy = decode_video_frames(&v.video_lossy, reader).unwrap();
        assert_eq!(emit_y4m(&lossy), v.video_lossy_y4m);
    }
    let (_, _, heard) = avelune::audio::v1::decode(&v.audio_lossless).unwrap();
    assert_eq!(bytes_from_samples(&heard), v.audio_lossless_pcm);
    let (_, _, rough) = avelune::audio::v1::decode(&v.audio_lossy).unwrap();
    assert_eq!(bytes_from_samples(&rough), v.audio_lossy_pcm);
    assert!(decode_video_frames(&v.corrupt, Backend::Production).is_err());
    assert!(decode_video_frames(&v.corrupt, Backend::Reference).is_err());
}
