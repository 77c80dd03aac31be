//! What holds of the formats as a whole, on given values.
use avelune::audio::v1 as audio;
use avelune::container::v1::parser::StreamPushError;
use avelune::container::v1::{
    parse_file_prefix, ContainerError, ContainerStreamDecoder, PacketKind, StreamKind, StreamParser,
};
use avelune::kernels::KernelSet;
use avelune::media::decode::{all_packets, decode_video_frames};
use avelune::media::vectors::make_vectors;
use avelune::media::{Backend, MediaError};
use avelune::mux::av::AvEncoderState;
use avelune::mux::MuxError;
use avelune::reference::audio as reference_audio;
use avelune::reference::video_decoder;
use avelune::reference::video_encoder;
use avelune::video::v1::search::{sad_inter, search_inter_motion};
use avelune::video::v1 as video;

fn picture() -> video::Frame420 {
    let y: Vec<u8> = (0..20 * 12u32).map(|i| (i * 37 ^ (i >> 3)) as u8).collect();
    let c: Vec<u8> = (0..10 * 6u32).map(|i| (i * 11) as u8).collect();
    video::Frame420::from_planes(20, 12, y, c.clone(), c).unwrap()
}

#[test]
fn video_packets_have_one_length() {
    let options = video::EncodeOptions {
        qstep: 9,
        ..Default::default()
    };
    let packet = video::encode(3, &picture(), &[], options).unwrap().packet;
    assert!(video::decode(&packet, &[]).is_ok());
    assert!(video_decoder::decode(&packet, &[]).is_ok());
    for n in 0..packet.len() {
        assert_eq!(
            video::decode(&packet[..n], &[]).err(),
            Some(video::VideoError::UnexpectedEof)
        );
        assert_eq!(
            video_decoder::decode(&packet[..n], &[]).err(),
            Some(video_decoder::Error::UnexpectedEof)
        );
    }
    for more in [0u8, 1, 255] {
        let mut longer = packet.clone();
        longer.push(more);
        assert_eq!(
            video::decode(&longer, &[]).err(),
            Some(video::VideoError::TrailingData)
        );
        assert_eq!(
            video_decoder::decode(&longer, &[]).err(),
            Some(video_decoder::Error::TrailingData)
        );
    }
}

#[test]
fn audio_packets_have_one_length() {
    let pcm: Vec<i16> = (0..300i32).map(|i| (i * 211 % 9001 - 4500) as i16).collect();
    let options = audio::EncodeOptions {
        sample_rate: 44_100,
        channels: 2,
        qstep: 5,
        mid_side: true,
    };
    let packet = audio::encode(&pcm, options).unwrap();
    assert!(audio::decode(&packet).is_ok());
    for n in 0..packet.len() {
        assert_eq!(
            audio::decode(&packet[..n]).err(),
            Some(audio::AudioError::UnexpectedEof)
        );
        assert!(reference_audio::decode(&packet[..n]).is_err());
    }
    for more in [0u8, 1, 255] {
        let mut longer = packet.clone();
        longer.push(more);
        assert_eq!(
            audio::decode(&longer).err(),
            Some(audio::AudioError::TrailingData)
        );
        assert!(reference_audio::decode(&longer).is_err());
    }
}

#[test]
fn a_changed_last_byte_is_noticed() {
    let v = make_vectors().unwrap();
    let n = v.corrupt.len() - 1;
    assert_eq!(v.corrupt[..n], v.video_lossless[..n]);
    assert_eq!(v.corrupt[n] ^ 0x80, v.video_lossless[n]);
    for value in [v.corrupt[n], v.video_lossless[n].wrapping_add(1)] {
        let mut file = v.video_lossless.clone();
        file[n] = value;
        assert!(matches!(
            all_packets(&file),
            Err(MediaError::PacketAt(_, ContainerError::PayloadChecksum))
        ));
        for reader in [Backend::Production, Backend::Reference] {
            assert!(matches!(
                decode_video_frames(&file, reader),
                Err(MediaError::PacketAt(_, ContainerError::PayloadChecksum))
            ));
        }
    }
}

#[test]
fn the_index_lists_every_epoch() {
    for frames in 1..8usize {
        let mut e = AvEncoderState::new(
            16,
            8,
            (25 << 16) | 1,
            1,
            video::EncoderPreset::Fast,
            3,
            0,
            0,
            0,
            0,
        )
        .unwrap();
        for i in 0..frames {
            e.video.input = (0..192).map(|k| (k * 5 + i * 40) as u8).collect();
            e.push_video_frame().unwrap();
        }
        e.finish().unwrap();
        let file = e.output.clone();
        assert_eq!(e.push_video_frame(), Err(MuxError::Finished));
        e.finish().unwrap();
        assert_eq!(e.output, file);

        let (_, front, start) = parse_file_prefix(&file).unwrap();
        assert_eq!(front.streams.len(), 1);
        assert_eq!(front.streams[0].id, 1);
        assert_eq!(front.streams[0].kind, StreamKind::Video);
        assert_eq!(front.epochs.len(), (frames + 2) / 3);
        let mut at = start as u64;
        for (i, epoch) in front.epochs.iter().enumerate() {
            assert_eq!(epoch.id, i as u32);
            assert_eq!(epoch.pts, i as u64 * 3 * 40_000);
            assert_eq!(epoch.offset, at);
            at += epoch.len;
        }
        assert_eq!(at, file.len() as u64);

        let (_, packets, n) = all_packets(&file).unwrap();
        assert_eq!(n, start);
        let shown: Vec<_> = packets
            .iter()
            .filter(|p| p.kind == PacketKind::VideoFrame)
            .collect();
        assert_eq!(shown.len(), frames);
        for (i, p) in shown.iter().enumerate() {
            assert_eq!(p.pts, i as u64 * 40_000);
            assert_eq!(p.payload, e.encoded_video[i].payload);
        }
    }
}

#[test]
fn a_new_session_has_the_usual_limits() {
    let mut session = ContainerStreamDecoder::new();
    let slot = session.reserve_fragment(300).unwrap();
    assert_eq!(slot.len(), 300);
    assert!(slot.iter().all(|&b| b == 0));
    assert_eq!(
        session.reserve_fragment(1).err(),
        Some(ContainerError::ParserState)
    );
    let mut fresh = ContainerStreamDecoder::default();
    assert_eq!(
        fresh.reserve_fragment(167_772_161).err(),
        Some(ContainerError::ResourceLimit)
    );
    assert!(fresh.reserve_fragment(16).unwrap().iter().all(|&b| b == 0));
}

#[test]
fn large_coefficients_may_cancel() {
    let signs = [1i64, 1, 1, -1, 1, 1, 1, -1];
    let mut a = [0i32; 64];
    for y in 0..8 {
        for x in 0..8 {
            a[8 * y + x] = (signs[x] * signs[y] * (1 << 26)) as i32;
        }
    }
    let odd = |i: usize, k: usize| (i & k).count_ones() % 2 == 1;
    let r = KernelSet::auto().inverse_wht8x8(a);
    for v in 0..8 {
        for u in 0..8 {
            let mut sum = 0i64;
            for y in 0..8 {
                for x in 0..8 {
                    let term = a[8 * y + x] as i64;
                    sum += if odd(x, u) != odd(y, v) { -term } else { term };
                }
            }
            assert_eq!(r[8 * v + u] as i64, sum / 64);
        }
    }
    assert_eq!(r[0], 16 << 20);
}

/// A plane whose rows and columns repeat, so that many motions are equally good.
fn repeating(w: usize, h: usize, period: usize, add: usize) -> Vec<u8> {
    (0..w * h)
        .map(|i| ((i % w % period * 40 + i / w % period * 23 + add) % 251) as u8)
        .collect()
}

#[test]
fn no_motion_in_the_radius_is_better() {
    let (w, h) = (40usize, 40usize);
    let kernels = KernelSet::auto();
    for (period, add) in [(2, 3), (3, 1), (4, 7), (5, 0), (7, 9)] {
        let reference = repeating(w, h, period, 0);
        let mut src = repeating(w, h, period, add);
        for i in (0..src.len()).step_by(17) {
            src[i] = src[i].wrapping_add(90);
        }
        for (bx, by) in [(0usize, 0usize), (16, 8), (32, 32)] {
            for radius in [0i32, 1, 2, 5] {
                let cost = |dx2, dy2| sad_inter(&src, &reference, w, h, bx, by, dx2, dy2, kernels);
                // The first of the best, row by row, where one is better than no motion.
                let mut first = (cost(0, 0), 0, 0);
                for dy in -radius..=radius {
                    for dx in -radius..=radius {
                        if cost(2 * dx, 2 * dy) < first.0 {
                            first = (cost(2 * dx, 2 * dy), dx, dy);
                        }
                    }
                }
                let find = |preset| {
                    search_inter_motion(&src, &reference, w, h, bx, by, radius, preset, kernels)
                };
                let found = find(video::EncoderPreset::Quality);
                assert_eq!(find(video::EncoderPreset::Balanced), found);
                assert_eq!(found.0, cost(found.1, found.2));
                assert!(found.0 <= first.0);
                assert!((found.1 - 2 * first.1).abs() <= 1 && (found.2 - 2 * first.2).abs() <= 1);
                assert!(find(video::EncoderPreset::Fast).0 <= cost(0, 0));
            }
        }
    }
}

#[test]
fn both_decoders_read_the_reference_encoder() {
    let shot = |seed: usize| video_encoder::Frame420 {
        width: 24,
        height: 16,
        y: (0..384).map(|i| (i * 29 + seed * 7) as u8).collect(),
        u: (0..96).map(|i| (i * 13 + seed) as u8).collect(),
        v: (0..96).map(|i| (i * 17 + seed) as u8).collect(),
    };
    let production = |f: &video_encoder::Frame420| {
        video::Frame420::from_planes(24, 16, f.y.clone(), f.u.clone(), f.v.clone()).unwrap()
    };
    for qstep in [1u16, 30] {
        let options = video_encoder::EncodeOptions {
            qstep,
            max_refs: 1,
            ..Default::default()
        };
        let first = video_encoder::encode(1, &shot(0), &[], options).unwrap();
        let second =
            video_encoder::encode(2, &shot(1), &[(1, &first.reconstructed)], options).unwrap();
        let known = production(&first.reconstructed);
        let (id, a, ids) = video::decode(&second.packet, &[(1, &known)]).unwrap();
        let plain = video_decoder::Frame420 {
            width: 24,
            height: 16,
            y: first.reconstructed.y.clone(),
            u: first.reconstructed.u.clone(),
            v: first.reconstructed.v.clone(),
        };
        let (other, b, others) = video_decoder::decode(&second.packet, &[(1, &plain)]).unwrap();
        assert_eq!((id, &ids), (other, &others));
        assert_eq!(a, production(&second.reconstructed));
        assert_eq!((a.y(), a.u(), a.v()), (&b.y[..], &b.u[..], &b.v[..]));
        assert_eq!(ids, second.dependencies);
    }
}

fn two_epochs() -> Vec<u8> {
    let preset = video::EncoderPreset::Fast;
    let mut e = AvEncoderState::new(16, 8, (25 << 16) | 1, 1, preset, 2, 0, 0, 0, 0).unwrap();
    for i in 0..4usize {
        e.video.input = (0..192).map(|k| (k * 7 + i * 31) as u8).collect();
        e.push_video_frame().unwrap();
    }
    e.finish().unwrap();
    e.output
}

#[test]
fn a_refused_packet_comes_again() {
    let file = two_epochs();
    let (_, packets, _) = all_packets(&file).unwrap();
    for k in 0..packets.len() {
        let mut parser = StreamParser::new(1 << 20, 1 << 20, KernelSet::scalar());
        let mut seen = Vec::new();
        let r = parser.push_each(&file, |p| {
            seen.push(p.payload.to_vec());
            if seen.len() == k + 1 {
                Err(k)
            } else {
                Ok(())
            }
        });
        assert!(matches!(r, Err(StreamPushError::Consumer(e)) if e == k));
        assert_eq!(seen.len(), k + 1);
        let mut again = Vec::new();
        parser
            .push_each(&[], |p| {
                again.push(p.payload.to_vec());
                Ok::<(), usize>(())
            })
            .unwrap();
        assert_eq!(again.len(), packets.len() - k);
        for (i, p) in packets.iter().enumerate() {
            let got = if i < k { &seen[i] } else { &again[i - k] };
            assert_eq!(got, &p.payload);
        }
        assert_eq!(seen[k], again[0]);
        assert!(parser.finish().is_ok());
    }
}

#[test]
fn a_ceiling_at_the_largest_payload_is_enough() {
    let file = two_epochs();
    let (_, packets, _) = all_packets(&file).unwrap();
    let largest = packets.iter().map(|p| p.payload.len()).max().unwrap();
    for step in [1usize, 7, 100, file.len()] {
        let mut parser = StreamParser::new(largest, file.len(), KernelSet::scalar());
        let mut got = Vec::new();
        for part in file.chunks(step) {
            got.extend(parser.push(part).unwrap());
        }
        assert_eq!(got, packets);
        assert_eq!(parser.buffered_bytes(), 0);
        assert!(parser.finish().is_ok());
    }
    let mut small = StreamParser::new(largest - 1, file.len(), KernelSet::scalar());
    assert!(matches!(
        small.push(&file),
        Err(ContainerError::PacketTooLarge(_))
    ));
}
