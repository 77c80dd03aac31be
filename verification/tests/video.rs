//! The ALV1 codec.
use avelune::bitstream::v1::{put_svarint_i32, put_uvarint};
use avelune::video::v1::decoder::decode_plane_single;
use avelune::video::v1::history::History;
use avelune::video::v1::{
    decode, encode, EncodeOptions, Frame420, VideoDecoder, VideoEncoder, VideoError,
};
use std::sync::Arc;

fn frame(seed: u8) -> Frame420 {
    let w = 18;
    let h = 10;
    let mut y = Vec::new();
    for j in 0..h {
        for i in 0..w {
            y.push(seed.wrapping_add((i * 7 + j * 11) as u8))
        }
    }
    Frame420::from_planes(
        w,
        h,
        y,
        vec![seed; w as usize * h as usize / 4],
        vec![seed.wrapping_add(30); w as usize * h as usize / 4],
    )
    .unwrap()
}
#[test]
fn stateful_encoder_reuses_uniquely_owned_evicted_frame() {
    let source = frame(23);
    let mut encoder = VideoEncoder::new(EncodeOptions {
        qstep: 1,
        max_refs: 0,
        ..Default::default()
    });
    let first = encoder.encode_shared(0, &source).unwrap();
    let first_ptr = first.reconstructed.y().as_ptr();
    drop(first);
    for id in 1..5u64 {
        let encoded = encoder.encode_shared(id, &source).unwrap();
        drop(encoded);
    }
    assert_eq!(encoder.pooled_frame_count(), 1);
    let sixth = encoder.encode_shared(5, &source).unwrap();
    assert_eq!(sixth.reconstructed.y().as_ptr(), first_ptr);
    assert_eq!(sixth.reconstructed.as_ref(), &source);
}

#[test]
fn stateful_decoder_reuses_uniquely_owned_evicted_frame() {
    let source = frame(17);
    let mut packets = Vec::new();
    for id in 0..6u64 {
        packets.push(
            encode(
                id,
                &source,
                &[],
                EncodeOptions {
                    qstep: 1,
                    ..Default::default()
                },
            )
            .unwrap()
            .packet,
        );
    }
    let mut decoder = VideoDecoder::new();
    let (_, first, _) = decoder.decode_shared(&packets[0]).unwrap();
    let first_ptr = first.y().as_ptr();
    drop(first);
    for packet in &packets[1..5] {
        let (_, decoded, _) = decoder.decode_shared(packet).unwrap();
        drop(decoded);
    }
    assert_eq!(decoder.pooled_frame_count(), 1);
    let (_, sixth, _) = decoder.decode_shared(&packets[5]).unwrap();
    assert_eq!(sixth.y().as_ptr(), first_ptr);
    assert_eq!(sixth.as_ref(), &source);
}

#[test]
fn lossless_exact() {
    let f = frame(3);
    let e = encode(
        0,
        &f,
        &[],
        EncodeOptions {
            qstep: 1,
            ..Default::default()
        },
    )
    .unwrap();
    let (_, d, _) = decode(&e.packet, &[]).unwrap();
    assert_eq!(d, f)
}
#[test]
fn lossy_encoder_matches_decoder() {
    let a = frame(3);
    let e0 = encode(
        0,
        &a,
        &[],
        EncodeOptions {
            qstep: 64,
            ..Default::default()
        },
    )
    .unwrap();
    let b = frame(5);
    let e1 = encode(
        1,
        &b,
        &[(0, &e0.reconstructed)],
        EncodeOptions {
            qstep: 64,
            max_refs: 1,
            ..Default::default()
        },
    )
    .unwrap();
    let (_, d, _) = decode(&e1.packet, &[(0, &e0.reconstructed)]).unwrap();
    assert_eq!(d, e1.reconstructed)
}
#[test]
fn extreme_signed_tokens_are_rejected_without_abs_overflow() {
    let reference = [0u8; 64];
    let refs: [&[u8]; 1] = [&reference];

    let mut motion = vec![3, 0];
    put_svarint_i32(i32::MIN, &mut motion);
    put_svarint_i32(0, &mut motion);
    put_uvarint(0, &mut motion);
    assert!(matches!(
        decode_plane_single(&motion, &refs, 8, 8, 1, avelune::kernels::KernelSet::scalar()),
        Err(VideoError::BadMode)
    ));

    let mut coeff = vec![0];
    put_uvarint(1, &mut coeff);
    put_uvarint(0, &mut coeff);
    put_svarint_i32(i32::MIN, &mut coeff);
    assert!(matches!(
        decode_plane_single(&coeff, &[], 8, 8, 1, avelune::kernels::KernelSet::scalar()),
        Err(VideoError::BadCoefficient)
    ));
}

#[test]
fn multiple_refs_decode() {
    let a = frame(1);
    let b = frame(80);
    let cur = frame(2);
    let e = encode(
        2,
        &cur,
        &[(0, &a), (1, &b)],
        EncodeOptions {
            qstep: 1,
            max_refs: 2,
            ..Default::default()
        },
    )
    .unwrap();
    let (_, d, _) = decode(&e.packet, &[(0, &a), (1, &b)]).unwrap();
    assert_eq!(d, cur)
}

#[test]
fn frames_to_reuse_are_four_at_most() {
    let mut history = History::new();
    history.keep(Err(Arc::new(frame(9))));
    assert_eq!(history.pool.len(), 0);
    for seed in 0..6 {
        history.keep(Ok(frame(seed)));
    }
    assert_eq!(history.pool.len(), 4);
    for seed in 0..4u8 {
        assert_eq!(history.pool[seed as usize].y(), frame(seed).y());
    }
    assert_eq!(history.frames.len(), 0);
}
