//! Varints and entropy blocks of the reference codecs.
use avelune::reference::bitstream::{
    entropy_compress, entropy_decompress, get_svarint_i32, get_uvarint, put_svarint_i32,
    BitstreamError,
};

#[test]
fn lib_signed_roundtrip() {
    for v in [i32::MIN, -100000, -1, 0, 1, 127, 128, 100000, i32::MAX] {
        let mut b = Vec::new();
        put_svarint_i32(v, &mut b);
        let mut p = 0;
        assert_eq!(get_svarint_i32(&b, &mut p), Ok(v));
        assert_eq!(p, b.len());
    }
}
#[test]
fn rejects_overlong_zero() {
    let mut p = 0;
    assert_eq!(
        get_uvarint(&[0x80, 0], &mut p),
        Err(BitstreamError::OverlongVarint)
    );
}
#[test]
fn entropy_roundtrip_patterns() {
    let mut x = Vec::new();
    for i in 0..20000 {
        x.push(((i * i + i * 17) >> 3) as u8)
    }
    for data in [&b""[..], &b"aaaaaaaaaaaaaaaaaaaaaaaaaaaaa"[..], &x[..]] {
        let c = entropy_compress(data);
        let d = entropy_decompress(&c, 1 << 20).unwrap();
        assert_eq!(d, data);
    }
}
#[test]
fn entropy_compresses_low_entropy() {
    let d = vec![7u8; 10000];
    let c = entropy_compress(&d);
    assert!(c.len() < 200);
    assert_eq!(entropy_decompress(&c, 20000).unwrap(), d);
}
