//! Encoders that are handed frames and samples.
use avelune::container::v1::{ContainerStreamDecoder, DecodedOutput, parse_file_prefix};
use avelune::handles::{av_arguments, video_arguments, ArgumentError, Slots};
use avelune::media::decode::{decode_audio_samples, decode_video_frames};
use avelune::media::Backend;
use avelune::mux::av::AvEncoderState;
use avelune::mux::streaming::StreamingAvEncoderState;
use avelune::mux::video::VideoEncoderState;
use avelune::mux::{video_encoder_pack_meta0, MuxError};
use avelune::player::Player;
use avelune::reference::frame::Frame420;
use avelune::video::v1::EncoderPreset;

const RATE: u32 = (25 << 16) | 1;

fn picture(seed: u8) -> Vec<u8> {
    (0..16 * 8 * 3 / 2).map(|i| (i as u8).wrapping_mul(3).wrapping_add(seed)).collect()
}

fn frame(seed: u8) -> Frame420 {
    let p = picture(seed);
    Frame420 {
        width: 16,
        height: 8,
        y: p[..128].to_vec(),
        u: p[128..160].to_vec(),
        v: p[160..].to_vec(),
    }
}

fn samples(n: usize) -> Vec<i16> {
    (0..n).map(|i| ((i * 91) % 3001) as i16 - 1500).collect()
}

#[test]
fn packs_browser_video_metadata_canonically() {
    assert_eq!(video_encoder_pack_meta0(0, 0), 0);
    assert_eq!(video_encoder_pack_meta0(1, 0), 1 << 13);
    assert_eq!(video_encoder_pack_meta0(2, 0), 2 << 13);
    assert_eq!(video_encoder_pack_meta0(0, 1), 1 << 12);
    assert_eq!(video_encoder_pack_meta0(2, 1), (1 << 12) | (2 << 13));
    assert_eq!(video_encoder_pack_meta0(3, 0), u32::MAX);
}

#[test]
fn video_configurations_are_checked() {
    let new = |w, h, fps, q, n, m| {
        VideoEncoderState::new(w, h, fps, q, EncoderPreset::Fast, n, m)
            .err()
            .unwrap()
    };
    assert_eq!(new(0, 8, RATE, 1, 1, 0), MuxError::Dimensions);
    assert_eq!(new(16, 7, RATE, 1, 1, 0), MuxError::Dimensions);
    assert_eq!(new(16384, 8192, RATE, 1, 1, 0), MuxError::TooManyPixels);
    assert_eq!(new(16, 8, 25 << 16, 1, 1, 0), MuxError::FrameRate);
    assert_eq!(new(16, 8, 1, 1, 1, 0), MuxError::FrameRate);
    assert_eq!(new(16, 8, RATE, 0, 1, 0), MuxError::VideoQuantizer);
    assert_eq!(new(16, 8, RATE, 1, 0, 0), MuxError::EpochLength);
    assert!(matches!(new(16, 8, RATE, 1, 1, 1 << 20), MuxError::Metadata(_)));
    assert_eq!(new(16, 8, (1 << 16) | 65535, 1, 1, 0), MuxError::Timebase);
}

#[test]
fn audio_configurations_are_checked() {
    let new = |rate, channels, q| {
        AvEncoderState::new(16, 8, RATE, 1, EncoderPreset::Fast, 2, 0, rate, channels, q).err()
    };
    assert_eq!(new(48_000, 300, 1), Some(MuxError::ChannelCount));
    assert_eq!(new(0, 2, 1), Some(MuxError::AudioRate));
    assert_eq!(new(48_000, 9, 1), Some(MuxError::AudioChannels));
    assert_eq!(new(48_000, 0, 1), Some(MuxError::AudioChannels));
    assert_eq!(new(48_000, 2, 0), Some(MuxError::AudioQuantizer));
    assert_eq!(new(0, 0, 0), None);
}

#[test]
fn video_encoder_makes_a_file() {
    let mut e = VideoEncoderState::new(16, 8, RATE, 1, EncoderPreset::Quality, 2, 1 << 13).unwrap();
    assert_eq!(e.finish(), Err(MuxError::Empty));
    for i in 0..5u8 {
        e.video.input = picture(i * 5);
        e.push_frame().unwrap();
    }
    e.finish().unwrap();
    assert_eq!(e.push_frame(), Err(MuxError::Finished));
    let (_, front, _) = parse_file_prefix(&e.output).unwrap();
    assert_eq!(front.epochs.len(), 3);
    assert_eq!(front.epochs[2].pts, 160_000);
    let clip = decode_video_frames(&e.output, Backend::Production).unwrap();
    assert_eq!(clip.meta0, 1 << 13);
    assert_eq!(clip.frames, (0..5u8).map(|i| frame(i * 5)).collect::<Vec<_>>());
    assert_eq!(decode_video_frames(&e.output, Backend::Reference).unwrap(), clip);
}

#[test]
fn frames_too_large_to_code_are_refused() {
    let mut e = VideoEncoderState::new(8194, 2, RATE, 1, EncoderPreset::Fast, 1, 0).unwrap();
    assert!(matches!(e.push_frame(), Err(MuxError::Video(_))));
}

fn av() -> AvEncoderState {
    AvEncoderState::new(16, 8, RATE, 1, EncoderPreset::Balanced, 2, 0, 48_000, 2, 1).unwrap()
}

#[test]
fn av_encoder_makes_a_file() {
    let mut e = av();
    assert!(e.audio_enabled());
    let pcm = samples(2 * 5760);
    for i in 0..3u8 {
        e.video.input = picture(i);
        e.push_video_frame().unwrap();
    }
    e.reserve_audio(pcm.len()).unwrap();
    e.audio_staging.copy_from_slice(&pcm);
    e.push_audio(pcm.len()).unwrap();
    e.finish().unwrap();
    assert_eq!(
        decode_audio_samples(&e.output, Backend::Production),
        Ok(Some((48_000, 2, pcm)))
    );
    let clip = decode_video_frames(&e.output, Backend::Production).unwrap();
    assert_eq!(clip.frames, (0..3u8).map(frame).collect::<Vec<_>>());

    let mut session = ContainerStreamDecoder::new();
    let mut outputs = 0;
    session
        .push_each(&e.output, |o| {
            if matches!(o, DecodedOutput::Video { .. }) {
                outputs += 1;
            }
            Ok::<(), std::convert::Infallible>(())
        })
        .unwrap();
    assert_eq!(outputs, 3);
}

#[test]
fn staging_is_checked() {
    let mut e = av();
    assert_eq!(e.push_audio(2), Err(MuxError::AudioLength));
    e.reserve_audio(3).unwrap();
    assert_eq!(e.push_audio(3), Err(MuxError::AudioAlignment));
    let mut mute =
        AvEncoderState::new(16, 8, RATE, 1, EncoderPreset::Fast, 2, 0, 0, 0, 0).unwrap();
    assert!(!mute.audio_enabled());
    assert_eq!(mute.reserve_audio(2), Err(MuxError::AudioDisabled));
    assert_eq!(mute.push_audio(2), Err(MuxError::AudioDisabled));
    assert_eq!(mute.finish(), Err(MuxError::Empty));
}

#[test]
fn streaming_encoder_makes_the_same_file() {
    let mut whole = av();
    let mut e =
        StreamingAvEncoderState::new(16, 8, RATE, 1, EncoderPreset::Balanced, 2, 0, 48_000, 2, 1)
            .unwrap();
    let pcm = samples(2 * 9600);
    let mut body = Vec::new();
    let mut taken = 0;
    for i in 0..5u8 {
        e.video.input = picture(i);
        e.push_video_frame().unwrap();
        whole.video.input = picture(i);
        whole.push_video_frame().unwrap();
        let part = &pcm[i as usize * 3840..(i as usize + 1) * 3840];
        e.reserve_audio(part.len()).unwrap();
        e.audio_staging.copy_from_slice(part);
        e.push_audio(part.len()).unwrap();
        whole.reserve_audio(part.len()).unwrap();
        whole.audio_staging.copy_from_slice(part);
        whole.push_audio(part.len()).unwrap();
        while e.take_epoch() {
            body.extend_from_slice(&e.transfer);
            taken += 1;
        }
    }
    assert_eq!(taken, 2);
    e.finish().unwrap();
    while e.take_epoch() {
        body.extend_from_slice(&e.transfer);
        taken += 1;
    }
    assert_eq!(taken, 3);
    whole.finish().unwrap();
    let mut file = e.prefix.clone();
    file.extend_from_slice(&body);
    assert_eq!(file, whole.output);
    assert_eq!(e.push_video_frame(), Err(MuxError::Finished));
    assert!(!e.take_epoch());
}

#[test]
fn handles_are_given_out_and_taken_back() {
    let mut s: Slots<u8> = Slots::new();
    assert_eq!(s.insert(10), 1);
    assert_eq!(s.insert(20), 2);
    assert_eq!(s.insert(30), 3);
    assert!(s.get_mut(0).is_none());
    assert!(s.get_mut(4).is_none());
    *s.get_mut(2).unwrap() += 1;
    assert_eq!(s.get_mut(2), Some(&mut 21));
    assert!(s.remove(2));
    assert!(!s.remove(2));
    assert!(!s.remove(0));
    assert!(s.get_mut(2).is_none());
    assert_eq!(s.insert(40), 2);
    assert_eq!(s.get_mut(3), Some(&mut 30));
}

#[test]
fn encoder_arguments_are_checked() {
    assert_eq!(video_arguments(65535, 2), Ok((65535, EncoderPreset::Quality)));
    assert_eq!(video_arguments(65536, 3), Err(ArgumentError::Preset));
    assert_eq!(video_arguments(65536, 0), Err(ArgumentError::VideoQuantizer));
    assert_eq!(av_arguments(1, 2, 1), Ok((1, 2, EncoderPreset::Balanced)));
    assert_eq!(av_arguments(65536, 65536, 9), Err(ArgumentError::VideoQuantizer));
    assert_eq!(av_arguments(1, 65536, 9), Err(ArgumentError::AudioQuantizer));
    assert_eq!(av_arguments(1, 1, 9), Err(ArgumentError::Preset));
}

#[test]
fn player_shows_and_plays() {
    let source = avelune::video::v1::Frame420::from_planes(
        16,
        8,
        frame(3).y,
        frame(3).u,
        frame(3).v,
    )
    .unwrap();
    let options = avelune::video::v1::EncodeOptions {
        qstep: 1,
        ..Default::default()
    };
    let video = avelune::video::v1::encode(0, &source, &[], options).unwrap().packet;
    let pcm = samples(100);
    let sound = avelune::audio::v1::encode(
        &pcm,
        avelune::audio::v1::EncodeOptions {
            sample_rate: 44_100,
            channels: 2,
            qstep: 1,
            mid_side: true,
        },
    )
    .unwrap();
    let mut p = Player::new();
    assert!(p.last_plane(0).is_none());
    assert_eq!(p.decode_video_input(1), -1);
    p.resize_input(video.len() as u32);
    p.input.copy_from_slice(&video);
    assert_eq!(p.decode_video_input(video.len() as u32 - 1), -2);
    assert_eq!(p.last_error, -2);
    assert_eq!(p.decode_video_input(video.len() as u32), 0);
    assert_eq!((p.video_width, p.video_height), (16, 8));
    assert_eq!(p.last_plane(0).unwrap(), &frame(3).y[..]);
    assert_eq!(p.last_plane(1).unwrap(), &frame(3).u[..]);
    assert_eq!(p.last_plane(9).unwrap(), &frame(3).v[..]);
    assert_eq!(p.decode_audio_input(video.len() as u32), -3);
    p.resize_input(sound.len() as u32);
    p.input.copy_from_slice(&sound);
    assert_eq!(p.decode_audio_input(sound.len() as u32 + 1), -1);
    assert_eq!(p.decode_audio_input(sound.len() as u32), 0);
    assert_eq!((p.audio_rate, p.audio_channels), (44_100, 2));
    assert_eq!(p.audio, pcm);
    p.reset();
    assert!(p.audio.is_empty());
    assert!(p.last_plane(0).is_none());
    assert_eq!(p.video_width, 16);
}

type Shown = (Vec<Vec<u8>>, Vec<i16>);

fn take(session: &mut ContainerStreamDecoder, bytes: &[u8], seen: &mut Shown) {
    session
        .push_each(bytes, |o| {
            match o {
                DecodedOutput::Video { frame, .. } => seen.0.push(frame.y().to_vec()),
                DecodedOutput::Audio { pcm, .. } => seen.1.extend_from_slice(&pcm),
                _ => {}
            }
            Ok::<(), std::convert::Infallible>(())
        })
        .unwrap();
}

#[test]
fn fragments_and_earlier_epochs_do_not_matter() {
    let mut e = av();
    let pcm = samples(2 * 1920 * 5);
    for i in 0..5u8 {
        e.video.input = picture(i);
        e.push_video_frame().unwrap();
    }
    e.reserve_audio(pcm.len()).unwrap();
    e.audio_staging.copy_from_slice(&pcm);
    e.push_audio(pcm.len()).unwrap();
    e.finish().unwrap();

    let mut whole = ContainerStreamDecoder::new();
    let mut all: Shown = (Vec::new(), Vec::new());
    take(&mut whole, &e.output, &mut all);
    assert_eq!(all.0, (0..5u8).map(|i| frame(i).y).collect::<Vec<_>>());
    assert_eq!(all.1, pcm);

    let mut pieces = ContainerStreamDecoder::new();
    let mut again: Shown = (Vec::new(), Vec::new());
    for part in e.output.chunks(7) {
        take(&mut pieces, part, &mut again);
    }
    assert_eq!(again, all);

    // The second epoch by itself, to a decoder that has read the front of the file alone.
    let (_, front, n) = parse_file_prefix(&e.output).unwrap();
    let mut alone = ContainerStreamDecoder::new();
    let mut part: Shown = (Vec::new(), Vec::new());
    take(&mut alone, &e.output[..n], &mut part);
    let second = &front.epochs[1];
    alone.reset_epoch_range(Some(second.id));
    let at = second.offset as usize;
    take(&mut alone, &e.output[at..at + second.len as usize], &mut part);
    assert_eq!(part.0, all.0[2..4].to_vec());
    assert_eq!(part.1, pcm[2 * 1920 * 2..2 * 1920 * 4].to_vec());

    // Another epoch is not taken for the second.
    alone.reset_epoch_range(Some(second.id));
    let third = &front.epochs[2];
    let at = third.offset as usize;
    let refused = alone.push_each(&e.output[at..at + third.len as usize], |_| {
        Ok::<(), std::convert::Infallible>(())
    });
    assert!(refused.is_err());
}
