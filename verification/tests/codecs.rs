use core_wasm::dispatch::{check_version_decodable, decode_by_version};
use core_wasm::codec::{decode_naive, decode_naive_v0, encode_naive, encode_naive_v0, CodecError};
use core_wasm::grid_codec::{
    calculate_grid_width, check_grid_decodable, check_grid_fits, decode_wavelet_v1_two_pixels,
    decode_wavelet_v3_serpentine, decode_wavelet_v4_dyadic_dwt, decode_wavelet_v5_dyadic_lifting,
    decode_wavelet_v6_reassigned, effective_height, encode_wavelet_v1_two_pixels,
    encode_wavelet_v3_serpentine, encode_wavelet_v4_dyadic_dwt, encode_wavelet_v5_dyadic_lifting,
    encode_wavelet_v6_reassigned, floor_log2_of, pcm_start, power_of_two, wasm_get_complex_spectrogram_width,
    GridTransform, PixelStyle,
};
use core_wasm::payload::{
    decode_wavelet_v7_cqt, decode_wavelet_v9_reassigned, frame_wavelet_v9_reassigned,
};

fn ramp(n: usize) -> Vec<u8> {
    let mut original = vec![0u8; n];
    for i in 0..n {
        original[i] = (i % 256) as u8;
    }
    original
}

fn noise(n: usize) -> Vec<u8> {
    let mut state: u32 = 0x1234_5678;
    let mut out = Vec::with_capacity(n);
    for _ in 0..n {
        state = state.wrapping_mul(1664525).wrapping_add(1013904223);
        out.push((state >> 24) as u8);
    }
    out
}

#[test]
fn test_v3_pipeline_large() {
    let original = ramp(4000);
    let encoded = encode_wavelet_v3_serpentine(&original, 256, 0);
    let decoded = decode_wavelet_v3_serpentine(&encoded).unwrap();
    assert_eq!(original, decoded, "V3 pipeline failed for large audio!");
}

#[test]
fn test_v5_pipeline_large() {
    let original = ramp(4000);
    let encoded = encode_wavelet_v5_dyadic_lifting(&original, 256);
    let decoded = decode_wavelet_v5_dyadic_lifting(&encoded).unwrap();
    assert_eq!(original, decoded, "V5 pipeline failed for large audio!");
}

#[test]
fn test_v6_pipeline_large() {
    let original = ramp(4000);
    let encoded = encode_wavelet_v6_reassigned(&original, 256);
    let decoded = decode_wavelet_v6_reassigned(&encoded).unwrap();
    assert_eq!(original, decoded, "V6 pipeline failed for large audio!");
}

#[test]
fn grid_helpers_exact_values() {
    assert_eq!(calculate_grid_width(4000, 256), 4);
    assert_eq!(calculate_grid_width(0, 1024), 2);
    assert_eq!(calculate_grid_width(20, 4), 2);
    assert_eq!(calculate_grid_width(36, 4), 4);
    assert_eq!(effective_height(256), 256);
    assert_eq!(effective_height(100), 1024);
    assert_eq!(effective_height(2), 1024);
    assert_eq!(effective_height(0), 1024);
    assert!(power_of_two(1));
    assert!(power_of_two(64));
    assert!(!power_of_two(0));
    assert!(!power_of_two(96));
    assert_eq!(floor_log2_of(1024), 10);
    assert_eq!(floor_log2_of(1023), 9);
    assert_eq!(floor_log2_of(0), 0);
    assert_eq!(floor_log2_of(1), 0);
}

#[test]
fn naive_packing_exact_and_roundtrip() {
    let enc = encode_naive(&[1, 2, 3]);
    assert_eq!(enc, vec![0, 0, 0, 3, 1, 2, 3, 0]);
    assert_eq!(decode_naive(&enc).unwrap(), vec![1, 2, 3]);
    assert_eq!(encode_naive(&[]), vec![0, 0, 0, 0]);
    let data = noise(1001);
    assert_eq!(decode_naive_v0(&encode_naive_v0(&data)).unwrap(), data);
    assert_eq!(decode_naive(&[0, 0]), Err(CodecError::InvalidData(0)));
}

#[test]
fn v1_header_and_size() {
    let data = [1u8, 2, 3, 4, 5, 6, 7, 8];
    let enc = encode_wavelet_v1_two_pixels(&data, 4, 7);
    assert_eq!(enc.len(), 16 + 8 * 8);
    assert_eq!(&enc[0..16], &[0, 0, 0, 8, 0, 0, 0, 4, 0, 0, 0, 4, 7, 1, 0xAC, 0x44]);
    for px in enc[16..].chunks(4) {
        assert_eq!(px[2], 0);
        assert_eq!(px[3], 255);
    }
    assert_eq!(decode_wavelet_v1_two_pixels(&enc).unwrap(), data.to_vec());
}

#[test]
fn v1_roundtrip_all_orders_and_lengths() {
    for order in 0..3u32 {
        for len in [0usize, 1, 2, 3, 4, 5, 63, 64, 65, 1000] {
            let data = noise(len);
            let enc = encode_wavelet_v1_two_pixels(&data, 16, order);
            assert_eq!(decode_wavelet_v1_two_pixels(&enc).unwrap(), data);
        }
    }
}

#[test]
fn v3_v4_roundtrip_orders() {
    for order in 0..3u32 {
        let data = noise(3001);
        let enc3 = encode_wavelet_v3_serpentine(&data, 64, order);
        assert_eq!(decode_wavelet_v3_serpentine(&enc3).unwrap(), data);
        let enc4 = encode_wavelet_v4_dyadic_dwt(&data, 64, order);
        assert_eq!(enc4[13], 4);
        assert_eq!(decode_wavelet_v4_dyadic_dwt(&enc4).unwrap(), data);
    }
}

#[test]
fn v5_v6_headers_differ_only_in_version() {
    let data = noise(777);
    let e5 = encode_wavelet_v5_dyadic_lifting(&data, 32);
    let e6 = encode_wavelet_v6_reassigned(&data, 32);
    assert_eq!(e5[12], 0);
    assert_eq!(e5[13], 5);
    assert_eq!(e6[13], 6);
    assert_eq!(&e5[..13], &e6[..13]);
    assert_eq!(&e5[14..], &e6[14..]);
    assert_eq!(decode_wavelet_v6_reassigned(&e6).unwrap(), data);
}

#[test]
fn grid_decoders_reject_short_images() {
    let short = [0u8; 10];
    assert_eq!(decode_wavelet_v1_two_pixels(&short), Err(CodecError::InvalidData(1)));
    assert_eq!(decode_wavelet_v3_serpentine(&short), Err(CodecError::InvalidData(3)));
    assert_eq!(decode_wavelet_v4_dyadic_dwt(&short), Err(CodecError::InvalidData(4)));
    assert_eq!(decode_wavelet_v5_dyadic_lifting(&short), Err(CodecError::InvalidData(5)));
    assert_eq!(decode_wavelet_v6_reassigned(&short), Err(CodecError::InvalidData(5)));
}

#[test]
fn grid_checks() {
    assert!(check_grid_fits(4000, 256));
    assert!(!check_grid_fits(usize::MAX / 2, 256));
    let data = noise(100);
    let enc = encode_wavelet_v1_two_pixels(&data, 8, 0);
    assert!(check_grid_decodable(&enc, GridTransform::Packet(0), PixelStyle::Word));
    assert!(!check_grid_decodable(&enc[..enc.len() - 8], GridTransform::Packet(0), PixelStyle::Word));
    let mut bad = enc.clone();
    bad[3] = 255;
    bad[2] = 255;
    assert!(!check_grid_decodable(&bad, GridTransform::Packet(0), PixelStyle::Word));
    assert!(check_grid_decodable(&bad, GridTransform::Lifting53, PixelStyle::Word));
    assert!(check_grid_decodable(&[0u8; 3], GridTransform::Lifting53, PixelStyle::Serpentine));
}

#[test]
fn column_decoders_stop_at_the_grid() {
    let data = noise(64);
    let mut enc = encode_wavelet_v5_dyadic_lifting(&data, 4);
    enc[0] = 0;
    enc[1] = 0;
    enc[2] = 1;
    enc[3] = 0;
    let dec = decode_wavelet_v5_dyadic_lifting(&enc).unwrap();
    assert_eq!(dec.len(), 4 * 16);
    assert_eq!(dec, data);
}

#[test]
fn v7_payload_errors_and_slices() {
    assert_eq!(decode_wavelet_v7_cqt(&[0u8; 10]), Err(CodecError::InvalidInput));
    let mut img = vec![0u8; 16];
    img[3] = 5;
    assert_eq!(decode_wavelet_v7_cqt(&img), Err(CodecError::CorruptedPayload));
    let mut img = vec![0u8; 22];
    img[3] = 2;
    img[7] = 1;
    img[11] = 1;
    img[20] = 42;
    img[21] = 43;
    assert_eq!(decode_wavelet_v7_cqt(&img).unwrap(), vec![42, 43]);
}

#[test]
fn v9_payload_errors_and_roundtrip() {
    assert_eq!(decode_wavelet_v9_reassigned(&[0u8; 20]), Err(CodecError::InvalidInput));
    let mut img = vec![0u8; 24];
    img[3] = 1;
    assert_eq!(decode_wavelet_v9_reassigned(&img), Err(CodecError::TruncatedPayload));
    let data = noise(500);
    let spectrogram = noise(24 + 4 * 800 * 4);
    let framed = frame_wavelet_v9_reassigned(&data, 4, &spectrogram);
    assert_eq!(framed.len(), 24 + 4 * 800 * 4 + 500);
    assert_eq!(&framed[24..24 + 4 * 800 * 4], &spectrogram[24..]);
    assert_eq!(framed[13], 9);
    assert_eq!(decode_wavelet_v9_reassigned(&framed).unwrap(), data);
}

#[test]
fn spectrogram_width_skips_wav_header() {
    let mut wav = vec![0u8; 44 + 8000];
    wav[0] = b'R';
    wav[1] = b'I';
    wav[2] = b'F';
    wav[3] = b'F';
    assert_eq!(pcm_start(&wav), 44);
    // 8000 PCM bytes: 4000 as the data length, 1000 pairs over 256 rows.
    assert_eq!(wasm_get_complex_spectrogram_width(&wav, 256), 4);
    let raw = vec![1u8; 8044];
    assert_eq!(pcm_start(&raw), 0);
    // 4022 bytes: 1006 pairs over 256 rows, rounded up to an even width.
    assert_eq!(wasm_get_complex_spectrogram_width(&raw, 256), 4);
    // A height that is no power of two falls back to 1024 rows.
    assert_eq!(wasm_get_complex_spectrogram_width(&raw, 300), 2);
    let short = b"RIFF".to_vec();
    assert_eq!(pcm_start(&short), 0);
}

fn plain_snake() -> core_wasm::snake::SnakeLut {
    let mut plain = Vec::new();
    for r in 0..256 {
        for g in 0..256 {
            plain.push((r as u8, g as u8));
        }
    }
    core_wasm::snake::SnakeLut::from_points(&plain).unwrap()
}

#[test]
fn version_byte_picks_the_decoder() {
    let lut = plain_snake();
    let data = ramp(1000);
    let v1 = encode_wavelet_v1_two_pixels(&data, 16, 2);
    assert!(check_version_decodable(&v1));
    assert_eq!(decode_by_version(&lut, &v1).unwrap(), data);
    let v3 = encode_wavelet_v3_serpentine(&data, 16, 1);
    assert_eq!(decode_by_version(&lut, &v3).unwrap(), data);
    let v4 = encode_wavelet_v4_dyadic_dwt(&data, 16, 1);
    assert_eq!(decode_by_version(&lut, &v4).unwrap(), data);
    let v5 = encode_wavelet_v5_dyadic_lifting(&data, 16);
    assert_eq!(decode_by_version(&lut, &v5).unwrap(), data);
    let v2 = core_wasm::bitplane::encode_wavelet_v2_bitplane(&lut, &data, 16, 0);
    assert_eq!(decode_by_version(&lut, &v2).unwrap(), data);
    let mut v6 = v5.clone();
    v6[13] = 6;
    assert_eq!(decode_by_version(&lut, &v6).unwrap(), data);
    let mut v9 = v5.clone();
    v9[13] = 9;
    assert_eq!(decode_by_version(&lut, &v9), Err(CodecError::UnsupportedVersion));
    assert_eq!(decode_by_version(&lut, &[0u8; 15]), Err(CodecError::InvalidInput));
    let mut bad_v2 = v2.clone();
    bad_v2.truncate(20);
    assert_eq!(decode_by_version(&lut, &bad_v2), Err(CodecError::InvalidSize));
}
