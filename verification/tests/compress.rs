use json_reordering::compress::{compress_zstd, decompress_zstd, ZstdError};

#[test]
fn compression_round_trips() {
    let data = b"{\"a\":1}\n{\"a\":2}\n{\"a\":3}\n".repeat(50);
    let frame = compress_zstd(&data);
    assert_ne!(frame, data);
    assert!(frame.len() < data.len());
    assert_eq!(&frame[..4], &[0x28, 0xb5, 0x2f, 0xfd]);
    assert_eq!(decompress_zstd(&frame).unwrap(), data);
}

#[test]
fn compression_matches_zstd_default_level() {
    let data = b"hello hello hello hello".to_vec();
    assert_eq!(compress_zstd(&data), zstd::encode_all(&data[..], 3).unwrap());
}

#[test]
fn empty_input_round_trips() {
    let frame = compress_zstd(&[]);
    assert!(frame.len() >= 4);
    assert_eq!(decompress_zstd(&frame).unwrap(), Vec::<u8>::new());
}

#[test]
fn decompression_rejects_other_bytes() {
    assert_eq!(decompress_zstd(b"not zstd data"), Err(ZstdError::InvalidData));
}
