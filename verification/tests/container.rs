//! Files, packets and streams.
use avelune::container::v1::{
    build_file, build_file_checked, encode_packet, encode_packet_checked, parse_file_prefix,
    validate_epoch_ranges, ChromaLocation, ColorMatrix, ColorPrimaries, ColorTransfer,
    ContainerError, ContainerStreamDecoder, DecodedOutput, Packet, PacketKind, StreamDesc,
    StreamKind, StreamParser, VideoMeta, TIMEBASE,
};
use avelune::video::v1::{EncodeOptions, Frame420, VideoEncoder};
use std::convert::Infallible;

fn ep() -> Vec<u8> {
    let mut v = Vec::new();
    encode_packet(
        &Packet {
            kind: PacketKind::EpochStart,
            flags: 0,
            stream_id: 0,
            pts: 0,
            duration: 1000,
            payload: 1u32.to_le_bytes().to_vec(),
        },
        &mut v,
    );
    v
}
#[test]
fn checked_builder_rejects_epoch_without_matching_start() {
    let s = vec![StreamDesc {
        id: 1,
        kind: StreamKind::Video,
        codec: 1,
        timescale: TIMEBASE,
        param0: 2,
        param1: 2,
        flags: 0,
        meta0: 0,
    }];
    let bytes = ep();
    assert_eq!(
        build_file_checked(s, vec![(7, 0, 1000, bytes)]),
        Err(ContainerError::BadEpoch)
    );
}

#[test]
fn checked_builder_validates_entire_epoch_and_stream_routes() {
    let streams = vec![StreamDesc {
        id: 2,
        kind: StreamKind::Audio,
        codec: 1,
        timescale: TIMEBASE,
        param0: 48_000,
        param1: 2,
        flags: 0,
        meta0: 0,
    }];
    let mut bytes = Vec::new();
    encode_packet(
        &Packet {
            kind: PacketKind::EpochStart,
            flags: 0,
            stream_id: 0,
            pts: 0,
            duration: 1,
            payload: 0u32.to_le_bytes().to_vec(),
        },
        &mut bytes,
    );
    encode_packet(
        &Packet {
            kind: PacketKind::VideoFrame,
            flags: 0,
            stream_id: 2,
            pts: 0,
            duration: 1,
            payload: vec![1, 2, 3],
        },
        &mut bytes,
    );
    assert_eq!(
        build_file_checked(streams, vec![(0, 0, 1, bytes)]),
        Err(ContainerError::BadStream)
    );

    let mut nested = Vec::new();
    encode_packet(
        &Packet {
            kind: PacketKind::EpochStart,
            flags: 0,
            stream_id: 0,
            pts: 0,
            duration: 1,
            payload: 0u32.to_le_bytes().to_vec(),
        },
        &mut nested,
    );
    encode_packet(
        &Packet {
            kind: PacketKind::EpochStart,
            flags: 0,
            stream_id: 0,
            pts: 1,
            duration: 1,
            payload: 1u32.to_le_bytes().to_vec(),
        },
        &mut nested,
    );
    assert_eq!(
        validate_epoch_ranges(&[(0, 0, 1, nested)]),
        Err(ContainerError::BadEpoch)
    );
}

#[test]
fn mod_file_index_roundtrip() {
    let s = vec![StreamDesc {
        id: 1,
        kind: StreamKind::Video,
        codec: 1,
        timescale: TIMEBASE,
        param0: 320,
        param1: 180,
        flags: 0,
        meta0: 0,
    }];
    let f = build_file(s.clone(), vec![(0, 0, 1000, ep()), (1, 1000, 1000, ep())]);
    let (h, front, n) = parse_file_prefix(&f).unwrap();
    assert_eq!(h.stream_count, 1);
    assert_eq!(front.streams, s);
    assert_eq!(front.epochs.len(), 2);
    assert_eq!(front.epochs[0].offset, n as u64);
    assert_eq!(
        front.epochs[1].offset,
        front.epochs[0].offset + front.epochs[0].len
    );
}
#[test]
fn mod_video_meta_roundtrip() {
    let m = VideoMeta {
        matrix: ColorMatrix::Bt709,
        transfer: ColorTransfer::Srgb,
        primaries: ColorPrimaries::Bt709,
        full_range: true,
        chroma: ChromaLocation::Center,
    };
    assert_eq!(VideoMeta::unpack(m.pack()).unwrap(), m);
    assert!(VideoMeta::unpack(0x1_0000).is_err());
}
#[test]
fn mod_one_byte_incremental() {
    let s = vec![StreamDesc {
        id: 1,
        kind: StreamKind::Video,
        codec: 1,
        timescale: TIMEBASE,
        param0: 2,
        param1: 2,
        flags: 0,
        meta0: 0,
    }];
    let f = build_file(s, vec![(0, 0, 1, ep())]);
    let mut p = StreamParser::default();
    let mut n = 0;
    for b in f {
        n += p.push(&[b]).unwrap().len()
    }
    p.finish().unwrap();
    assert_eq!(n, 1);
}
#[test]
fn stream_decoder_keeps_reference_history_per_video_stream() {
    fn frame(seed: u8) -> Frame420 {
        let w = 16u32;
        let h = 16u32;
        let y = (0..w * h)
            .map(|i| seed.wrapping_add((i * 7) as u8))
            .collect();
        let u = (0..w * h / 4)
            .map(|i| seed.wrapping_add((i * 3) as u8))
            .collect();
        let v = (0..w * h / 4)
            .map(|i| seed.wrapping_sub((i * 5) as u8))
            .collect();
        Frame420::from_planes(w, h, y, u, v).unwrap()
    }

    let a0 = frame(11);
    let a1 = frame(12);
    let b0 = frame(171);
    let b1 = frame(172);
    let opt = EncodeOptions {
        qstep: 1,
        motion_radius: 2,
        max_refs: 1,
        ..Default::default()
    };
    let mut a = VideoEncoder::new(opt);
    let mut b = VideoEncoder::new(opt);
    let packets = [
        (10u16, 0u64, a.encode(0, &a0).unwrap().packet),
        (20u16, 0u64, b.encode(0, &b0).unwrap().packet),
        (10u16, 1u64, a.encode(1, &a1).unwrap().packet),
        (20u16, 1u64, b.encode(1, &b1).unwrap().packet),
    ];
    let mut epoch = Vec::new();
    encode_packet_checked(
        &Packet {
            kind: PacketKind::EpochStart,
            flags: 0,
            stream_id: 0,
            pts: 0,
            duration: 4,
            payload: 7u32.to_le_bytes().to_vec(),
        },
        &mut epoch,
    )
    .unwrap();
    for (stream_id, frame_id, payload) in packets {
        encode_packet_checked(
            &Packet {
                kind: PacketKind::VideoFrame,
                flags: 0,
                stream_id,
                pts: frame_id,
                duration: 1,
                payload,
            },
            &mut epoch,
        )
        .unwrap();
    }
    let streams = [10u16, 20u16]
        .into_iter()
        .map(|id| StreamDesc {
            id,
            kind: StreamKind::Video,
            codec: 1,
            timescale: TIMEBASE,
            param0: 16,
            param1: 16,
            flags: 0,
            meta0: 0,
        })
        .collect();
    let file = build_file_checked(streams, vec![(7, 0, 4, epoch)]).unwrap();
    let mut decoder = ContainerStreamDecoder::new();
    let mut got = Vec::new();
    decoder
        .push_each(&file, |output| {
            if let DecodedOutput::Video {
                stream_id,
                frame_id,
                frame,
                ..
            } = output
            {
                got.push((stream_id, frame_id, frame));
            }
            Ok::<_, Infallible>(())
        })
        .unwrap();
    decoder.finish_input().unwrap();
    assert_eq!(got.len(), 4);
    let expected = [(10, 0, &a0), (20, 0, &b0), (10, 1, &a1), (20, 1, &b1)];
    for ((sid, fid, actual), (esid, efid, source)) in got.iter().zip(expected) {
        assert_eq!((*sid, *fid), (esid, efid));
        assert_eq!(actual.as_ref(), source);
    }
}
