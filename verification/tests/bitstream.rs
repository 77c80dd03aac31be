//! Varints and entropy blocks.
use avelune::bitstream::v1::{
    entropy_compress, entropy_decompress, entropy_decompress_with_scratch, get_svarint_i32,
    get_uvarint, put_svarint_i32, put_uvarint, BitstreamError, EntropyScratch,
};

#[test]
fn v1_signed_roundtrip() {
    for value in [i32::MIN, -100000, -1, 0, 1, 127, 128, 100000, i32::MAX] {
        let mut bytes = Vec::new();
        put_svarint_i32(value, &mut bytes);
        let mut pos = 0;
        assert_eq!(get_svarint_i32(&bytes, &mut pos), Ok(value));
        assert_eq!(pos, bytes.len());
    }
}

#[test]
fn canonical_varint_edges() {
    for value in [0, 1, 127, 128, u32::MAX as u64, u64::MAX] {
        let mut bytes = Vec::new();
        put_uvarint(value, &mut bytes);
        let mut pos = 0;
        assert_eq!(get_uvarint(&bytes, &mut pos), Ok(value));
        assert_eq!(pos, bytes.len());
    }
    for bad in [
        &[0x80, 0][..],
        &[0x81, 0][..],
        &[0xff; 11][..],
        &[0x82, 0x80, 0][..],
    ] {
        let mut pos = 0;
        assert!(get_uvarint(bad, &mut pos).is_err());
    }
}

#[test]
fn entropy_roundtrip_and_scratch_reuse() {
    let patterns = [
        Vec::new(),
        vec![7u8; 10000],
        (0..20000).map(|i| ((i * i + i * 17) >> 3) as u8).collect(),
    ];
    let mut scratch = EntropyScratch::new();
    for data in patterns {
        let coded = entropy_compress(&data);
        let decoded = entropy_decompress_with_scratch(&coded, 1 << 20, &mut scratch).unwrap();
        assert_eq!(decoded, data);
    }
    assert!(scratch.output_capacity() >= 10000);
}

#[test]
fn rejects_obsolete_entropy_mode_one() {
    assert_eq!(
        entropy_decompress(&[1, 0, 0, 0, 0], 1),
        Err(BitstreamError::BadEntropyHeader)
    );
}
