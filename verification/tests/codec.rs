use pqcrypto_sign_falcon::encoding::{Compression, Decompression, NaiveCompression, NaiveDecompression};

#[test]
fn compress_single_small_value_exact_bytes() {
    // 1 encodes as sign 0, low bits 0000001, terminator 0: nine bits,
    // padded to two bytes.
    let out = NaiveCompression::compress(&[1], 2).unwrap();
    assert_eq!(out, vec![0x01, 0x00]);
}

#[test]
fn compress_negative_value_sets_sign_bit() {
    let out = NaiveCompression::compress(&[-1], 2).unwrap();
    assert_eq!(out, vec![0x81, 0x00]);
}

#[test]
fn compress_large_magnitude_uses_continuation_bits() {
    // 200 = 1*128 + 72: sign 0, low bits 1001000, one continuation
    // one-bit, terminator 0 -> bits 0 1001000 1 0, padded.
    let out = NaiveCompression::compress(&[200], 2).unwrap();
    assert_eq!(out, vec![0b0100_1000, 0b1000_0000]);
}

#[test]
fn compress_fails_when_budget_too_small() {
    // Each coefficient needs at least nine bits; one byte cannot hold one.
    assert!(NaiveCompression::compress(&[-1], 1).is_none());
    // Four coefficients needing more than one byte each against one byte.
    assert!(NaiveCompression::compress(&[200, 200, 200, 200], 1).is_none());
}

#[test]
fn decompress_single_value() {
    let got = NaiveDecompression::decompress(&[0x01, 0x00], 2, 1).unwrap();
    assert_eq!(got, vec![1]);
}

#[test]
fn round_trip_mixed_values() {
    let v: Vec<i16> = vec![0, 1, -1, 127, -127, 128, -128, 4095, -4095, 32767, -32768];
    let budget = 128usize;
    let bytes = NaiveCompression::compress(&v, budget).unwrap();
    assert_eq!(bytes.len(), budget);
    let back = NaiveDecompression::decompress(&bytes, budget, v.len()).unwrap();
    assert_eq!(back, v);
}

#[test]
fn round_trip_full_width_signature_content() {
    let v: Vec<i16> = (0..512).map(|i| ((i * 37) % 301 - 150) as i16).collect();
    let budget = 666usize;
    let bytes = NaiveCompression::compress(&v, budget).unwrap();
    let back = NaiveDecompression::decompress(&bytes, budget, v.len()).unwrap();
    assert_eq!(back, v);
}

#[test]
fn decompress_rejects_oversized_input() {
    assert!(NaiveDecompression::decompress(&[0u8; 3], 2, 1).is_none());
}

#[test]
fn decompress_rejects_truncated_stream() {
    // Too few bits for even one sign-and-low-bits group.
    assert!(NaiveDecompression::decompress(&[], 2, 1).is_none());
    // Unary run hits the end of the stream without a terminator.
    assert!(NaiveDecompression::decompress(&[0xFF], 1, 1).is_none());
}

#[test]
fn decompress_rejects_count_beyond_stream() {
    // One byte holds no two full coefficients.
    assert!(NaiveDecompression::decompress(&[0x01], 1, 2).is_none());
}

#[test]
fn decompress_ignores_zero_padding_after_last_coefficient() {
    let bytes = NaiveCompression::compress(&[5, -6], 16).unwrap();
    let back = NaiveDecompression::decompress(&bytes, 16, 2).unwrap();
    assert_eq!(back, vec![5, -6]);
}
