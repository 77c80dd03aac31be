//! The reference audio codec.
use avelune::reference::audio::{decode, encode, EncodeOptions};

/// Signal-to-noise ratio in decibels.
fn snr_db(a: &[i16], b: &[i16]) -> f64 {
    let mut signal = 0f64;
    let mut noise = 0f64;
    for (&x, &y) in a.iter().zip(b) {
        signal += f64::from(x) * f64::from(x);
        let d = f64::from(x) - f64::from(y);
        noise += d * d;
    }
    if noise == 0.0 {
        f64::INFINITY
    } else {
        10.0 * (signal.max(1.0) / noise).log10()
    }
}

fn samples() -> Vec<i16> {
    (0..960 * 2)
        .map(|i| ((((i * 37) % 1000) - 500) * 40) as i16)
        .collect()
}
#[test]
fn exact_q1() {
    let s = samples();
    let e = encode(
        &s,
        EncodeOptions {
            qstep: 1,
            ..Default::default()
        },
    )
    .unwrap();
    let (_, _, d) = decode(&e).unwrap();
    assert_eq!(s, d)
}
#[test]
fn lossy_decodes() {
    let s = samples();
    let e = encode(
        &s,
        EncodeOptions {
            qstep: 128,
            ..Default::default()
        },
    )
    .unwrap();
    let (_, _, d) = decode(&e).unwrap();
    assert_eq!(d.len(), s.len());
    assert!(snr_db(&s, &d) > 20.0)
}
#[test]
fn mono_exact() {
    let s: Vec<i16> = (0..960).map(|i| (i as i16).wrapping_mul(31)).collect();
    let e = encode(
        &s,
        EncodeOptions {
            channels: 1,
            qstep: 1,
            mid_side: false,
            ..Default::default()
        },
    )
    .unwrap();
    assert_eq!(decode(&e).unwrap().2, s)
}
