//! How far coded media are from their sources.
use avelune::audio::v1::AudioError;
use avelune::quality::{signal_and_noise, squared_error};
use avelune::video::v1::{Frame420, VideoError};

fn frame(w: u32, h: u32, y: u8, u: u8, v: u8) -> Frame420 {
    let n = (w * h) as usize;
    Frame420::from_planes(w, h, vec![y; n], vec![u; n / 4], vec![v; n / 4]).unwrap()
}

#[test]
fn signal_and_noise_are_sums_of_squares() {
    assert_eq!(signal_and_noise(&[], &[]).unwrap(), (0, 0));
    assert_eq!(signal_and_noise(&[3, -4], &[1, -4]).unwrap(), (25, 4));
    assert_eq!(
        signal_and_noise(&[i16::MIN], &[i16::MAX]).unwrap(),
        (1 << 30, 65_535 * 65_535)
    );
    assert_eq!(signal_and_noise(&[1], &[1, 2]), Err(AudioError::BadFrames));
}

#[test]
fn frames_differ_by_the_squares_of_their_samples() {
    let a = frame(4, 2, 10, 20, 30);
    assert_eq!(squared_error(&a, &a).unwrap(), (0, 12));
    // Eight luma samples are 3 off, two of the first chroma plane 1, two of the second 2.
    let b = frame(4, 2, 13, 19, 32);
    assert_eq!(squared_error(&a, &b).unwrap(), (8 * 9 + 2 + 2 * 4, 12));
    assert_eq!(
        squared_error(&a, &frame(2, 4, 10, 20, 30)),
        Err(VideoError::ReferenceShape)
    );
    let mut odd = frame(4, 2, 10, 20, 30);
    odd.width = 3;
    assert_eq!(squared_error(&odd, &a), Err(VideoError::BadDimensions));
    let mut short = frame(4, 2, 10, 20, 30);
    short.height = 4;
    assert_eq!(squared_error(&a, &short), Err(VideoError::PlaneLength));
}
