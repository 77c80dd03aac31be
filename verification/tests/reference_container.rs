//! The reference container reader.
use avelune::reference::container::{
    build_file, encode_packet, parse_file_prefix, ChromaLocation, ColorMatrix, ColorPrimaries,
    ColorTransfer, IncrementalParser, Packet, PacketKind, StreamDesc, StreamKind, VideoMeta,
    TIMEBASE,
};

fn ep() -> Vec<u8> {
    let mut v = Vec::new();
    encode_packet(
        &Packet {
            kind: PacketKind::EpochStart,
            flags: 0,
            stream_id: 0,
            pts: 0,
            duration: 1000,
            payload: 1u32.to_le_bytes().to_vec(),
        },
        &mut v,
    );
    v
}
#[test]
fn lib_file_index_roundtrip() {
    let s = vec![StreamDesc {
        id: 1,
        kind: StreamKind::Video,
        codec: 1,
        timescale: TIMEBASE,
        param0: 320,
        param1: 180,
        flags: 0,
        meta0: 0,
    }];
    let f = build_file(s.clone(), vec![(0, 0, 1000, ep()), (1, 1000, 1000, ep())]);
    let (h, front, n) = parse_file_prefix(&f).unwrap();
    assert_eq!(h.stream_count, 1);
    assert_eq!(front.streams, s);
    assert_eq!(front.epochs.len(), 2);
    assert_eq!(front.epochs[0].offset, n as u64);
    assert_eq!(
        front.epochs[1].offset,
        front.epochs[0].offset + front.epochs[0].len
    );
}
#[test]
fn lib_video_meta_roundtrip() {
    let m = VideoMeta {
        matrix: ColorMatrix::Bt709,
        transfer: ColorTransfer::Srgb,
        primaries: ColorPrimaries::Bt709,
        full_range: true,
        chroma: ChromaLocation::Center,
    };
    assert_eq!(VideoMeta::unpack(m.pack()).unwrap(), m);
    assert!(VideoMeta::unpack(0x1_0000).is_err());
}
#[test]
fn lib_one_byte_incremental() {
    let s = vec![StreamDesc {
        id: 1,
        kind: StreamKind::Video,
        codec: 1,
        timescale: TIMEBASE,
        param0: 2,
        param1: 2,
        flags: 0,
        meta0: 0,
    }];
    let f = build_file(s, vec![(0, 0, 1, ep())]);
    let mut p = IncrementalParser::default();
    let mut n = 0;
    for b in f {
        n += p.push(&[b]).unwrap().len()
    }
    p.finish().unwrap();
    assert_eq!(n, 1);
}
