//! The reference video codec.
use avelune::reference::video_decoder::{decode, Frame420};
use avelune::reference::video_encoder;
use avelune::reference::video_encoder::{EncodeOptions, Frame420 as ProdFrame};

fn prod_frame(seed: u8, w: u32, h: u32) -> ProdFrame {
    let mut y = vec![0; (w * h) as usize];
    for yy in 0..h as usize {
        for xx in 0..w as usize {
            y[yy * w as usize + xx] = seed.wrapping_add((xx * 7 + yy * 13) as u8);
        }
    }
    ProdFrame {
        width: w,
        height: h,
        y,
        u: vec![seed; (w * h / 4) as usize],
        v: vec![seed.wrapping_add(41); (w * h / 4) as usize],
    }
}
fn rf(p: &ProdFrame) -> Frame420 {
    Frame420 {
        width: p.width,
        height: p.height,
        y: p.y.clone(),
        u: p.u.clone(),
        v: p.v.clone(),
    }
}
fn same(p: &ProdFrame, r: &Frame420) {
    assert_eq!(p.width, r.width);
    assert_eq!(p.height, r.height);
    assert_eq!(p.y, r.y);
    assert_eq!(p.u, r.u);
    assert_eq!(p.v, r.v);
}

#[test]
fn differential_intra_inter_and_multi_reference() {
    for &q in &[1u16, 64, 96, 128, 192] {
        let a = prod_frame(3, 34, 26);
        let e0 = video_encoder::encode(
            10,
            &a,
            &[],
            EncodeOptions {
                qstep: q,
                ..Default::default()
            },
        )
        .unwrap();
        let (_, r0, _) = decode(&e0.packet, &[]).unwrap();
        same(&e0.reconstructed, &r0);
        let b = prod_frame(7, 34, 26);
        let e1 = video_encoder::encode(
            11,
            &b,
            &[(10, &e0.reconstructed)],
            EncodeOptions {
                qstep: q,
                max_refs: 1,
                ..Default::default()
            },
        )
        .unwrap();
        let rr0 = rf(&e0.reconstructed);
        let (_, r1, _) = decode(&e1.packet, &[(10, &rr0)]).unwrap();
        same(&e1.reconstructed, &r1);
        let c = prod_frame(90, 34, 26);
        let e2 = video_encoder::encode(
            12,
            &c,
            &[(11, &e1.reconstructed), (10, &e0.reconstructed)],
            EncodeOptions {
                qstep: q,
                max_refs: 2,
                ..Default::default()
            },
        )
        .unwrap();
        let rr1 = rf(&e1.reconstructed);
        let (_, r2, _) = decode(&e2.packet, &[(10, &rr0), (11, &rr1)]).unwrap();
        same(&e2.reconstructed, &r2);
    }
}

#[test]
fn differential_palette() {
    let w = 32;
    let h = 24;
    let mut a = prod_frame(0, w, h);
    for y in 0..h as usize {
        for x in 0..w as usize {
            a.y[y * w as usize + x] = if (x / 4 + y / 4) % 2 == 0 { 17 } else { 231 };
        }
    }
    a.u.fill(128);
    a.v.fill(128);
    let e = video_encoder::encode(
        1,
        &a,
        &[],
        EncodeOptions {
            qstep: 128,
            allow_palette: true,
            ..Default::default()
        },
    )
    .unwrap();
    let (_, r, _) = decode(&e.packet, &[]).unwrap();
    same(&e.reconstructed, &r);
}
