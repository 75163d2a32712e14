use core_wasm::lifting_i64::forward_packet_4_band;
use core_wasm::stereo::lr_to_ms;
use core_wasm::bijection::zigzag_decode;
use core_wasm::bitplane::{
    check_v2_decodable, check_v2_fits, decode_wavelet, decode_wavelet_v2_bitplane, encode_wavelet,
    encode_wavelet_v2_bitplane,
};
use core_wasm::codec::CodecError;
use core_wasm::grid_codec::{calculate_grid_width, effective_height};
use core_wasm::payload::{decode_wavelet_v7_cqt, frame_stft_cqt_v8_layout, frame_wavelet_v7_cqt};
use core_wasm::polyphase::{check_v8_decodable, check_v8_fits, decode_wavelet_v8_mband, encode_wavelet_v8_mband};
use core_wasm::snake::{
    decode_color_to_coefficient, decode_color_to_coefficient_raw, decode_rg_to_coefficient,
    decode_rg_to_coefficient_raw, get_color_b, get_color_g, get_color_r, wasm_generate_color_chart_4096,
    SnakeLut,
};

fn snake_points() -> Vec<(u8, u8)> {
    let mut all_pts = Vec::with_capacity(65536);
    for r in 0..256 {
        for g in 0..256 {
            all_pts.push((r as u8, g as u8));
        }
    }
    all_pts.sort_unstable_by(|a, b| {
        let dist_a = ((a.0 as f32).powi(2) + (a.1 as f32).powi(2)).sqrt();
        let dist_b = ((b.0 as f32).powi(2) + (b.1 as f32).powi(2)).sqrt();
        let ring_a = dist_a.floor() as i32;
        let ring_b = dist_b.floor() as i32;
        if ring_a != ring_b {
            ring_a.cmp(&ring_b)
        } else {
            let angle_a = (a.1 as f32).atan2(a.0 as f32);
            let angle_b = (b.1 as f32).atan2(b.0 as f32);
            if ring_a % 2 == 0 {
                angle_a.partial_cmp(&angle_b).unwrap()
            } else {
                angle_b.partial_cmp(&angle_a).unwrap()
            }
        }
    });
    all_pts
}

fn snake() -> SnakeLut {
    SnakeLut::from_points(&snake_points()).unwrap()
}

fn ramp(n: usize) -> Vec<u8> {
    let mut original = vec![0u8; n];
    for i in 0..n {
        original[i] = (i % 256) as u8;
    }
    original
}

#[test]
fn test_color_uniqueness() {
    let lut = snake();
    let mut seen = std::collections::HashSet::new();
    for i in 0..65536 {
        let color = (get_color_r(&lut, i as u16), get_color_g(&lut, i as u16), get_color_b(&lut, i as u16));
        assert!(seen.insert(color), "Duplicate color found at index {}: {:?}", i, color);
    }
    assert_eq!(seen.len(), 65536, "Not all 65,536 colors are unique!");
}

#[test]
fn test_fast_color_reversal() {
    let lut = snake();
    for i in 0..65536 {
        let original_coef = zigzag_decode(i as u32) as i16;
        let color = (get_color_r(&lut, i as u16), get_color_g(&lut, i as u16), get_color_b(&lut, i as u16));
        let color_24 = ((color.0 as u32) << 16) | ((color.1 as u32) << 8) | (color.2 as u32);
        let r = ((color_24 >> 16) & 0xFF) as u8;
        let g = ((color_24 >> 8) & 0xFF) as u8;
        let rev_idx = decode_rg_to_coefficient_raw(&lut, r, g);
        let decoded_coef = zigzag_decode(rev_idx as u32) as i16;
        assert_eq!(original_coef, decoded_coef, "Fast color reversal failed at index {}!", i);
    }
}

#[test]
fn test_rg_raw_bijection() {
    let lut = snake();
    for i in 0..65536 {
        let r = get_color_r(&lut, i as u16);
        let g = get_color_g(&lut, i as u16);
        let i_rec = decode_rg_to_coefficient_raw(&lut, r, g);
        assert_eq!(i as u16, i_rec, "RG raw bijection failed at value {}", i);
    }
}

#[test]
fn test_v2_pipeline_large() {
    let lut = snake();
    let original = ramp(4000);
    let encoded = encode_wavelet_v2_bitplane(&lut, &original, 256, 0);
    let decoded = decode_wavelet_v2_bitplane(&lut, &encoded).unwrap();
    assert_eq!(original, decoded, "V2 pipeline failed for large audio!");
}

#[test]
fn test_wavelet_pipeline_perfect_identity() {
    let lut = snake();
    let original_audio = vec![
        0x00, 0x01, 0x02, 0x03, 0x04, 0x05, 0x06, 0x07, 0x08, 0x09, 0x0A, 0x0B, 0x0C, 0x0D, 0x0E, 0x0F, 0xF0, 0xE0,
        0xD0, 0xC0, 0xB0, 0xA0, 0x90, 0x80, 0x12, 0x34, 0x56, 0x78,
    ];
    for order in 0..=2 {
        let encoded_rgba = encode_wavelet(&lut, &original_audio, 256, order);
        let decoded_audio = decode_wavelet(&lut, &encoded_rgba).unwrap();
        assert_eq!(original_audio, decoded_audio, "Pipeline failed for order {}", order);
    }
}

#[test]
fn snake_colors_have_blue_as_red_green_distance() {
    let lut = snake();
    assert_eq!((get_color_r(&lut, 0), get_color_g(&lut, 0), get_color_b(&lut, 0)), (0, 0, 0));
    for i in (0..65536).step_by(97) {
        let r = get_color_r(&lut, i as u16);
        let g = get_color_g(&lut, i as u16);
        let b = get_color_b(&lut, i as u16);
        assert_eq!(b, if r >= g { r - g } else { g - r });
        assert_eq!(decode_color_to_coefficient_raw(&lut, r, g, b), i as u16);
        assert_eq!(decode_color_to_coefficient_raw(&lut, r, g, b.wrapping_add(1)), i as u16);
        assert_eq!(decode_color_to_coefficient(&lut, r, g, b), decode_rg_to_coefficient(&lut, r, g));
    }
    assert_eq!(decode_rg_to_coefficient(&lut, 0, 0), 0);
}

#[test]
fn snake_rejects_bad_point_lists() {
    assert!(SnakeLut::from_points(&[(0, 0), (1, 1)]).is_none());
    let mut pts = snake_points();
    pts[5] = pts[6];
    assert!(SnakeLut::from_points(&pts).is_none());
    let mut plain = Vec::new();
    for r in 0..256 {
        for g in 0..256 {
            plain.push((r as u8, g as u8));
        }
    }
    let mut rotated = plain.clone();
    rotated.rotate_left(1);
    assert!(SnakeLut::from_points(&rotated).is_none());
    let lut = SnakeLut::from_points(&plain).unwrap();
    assert_eq!((get_color_r(&lut, 257), get_color_g(&lut, 257), get_color_b(&lut, 257)), (1, 1, 0));
    assert_eq!(decode_rg_to_coefficient_raw(&lut, 3, 4), 3 * 256 + 4);
}

#[test]
fn v2_errors_and_checks() {
    let lut = snake();
    assert_eq!(decode_wavelet_v2_bitplane(&lut, &[0u8; 10]), Err(CodecError::InvalidData(2)));
    let mut img = vec![0u8; 16];
    img[7] = 1;
    img[11] = 4;
    assert_eq!(decode_wavelet_v2_bitplane(&lut, &img), Err(CodecError::InvalidSize));
    assert!(check_v2_decodable(&img));
    assert!(check_v2_fits(4000, 256));
    let data = ramp(1000);
    let enc = encode_wavelet_v2_bitplane(&lut, &data, 64, 1);
    assert_eq!(&enc[0..16], &[0, 0, 3, 232, 0, 0, 0, 4, 0, 0, 0, 64, 1, 2, 0xAC, 0x44]);
    assert_eq!(enc.len(), 16 + 4 * 4 * 64);
    assert!(check_v2_decodable(&enc));
}

#[test]
fn v8_roundtrip_and_tail_bytes() {
    let lut = snake();
    for len in [4000usize, 4001, 4002, 4003, 0, 3] {
        let original = ramp(len);
        let encoded = encode_wavelet_v8_mband(&lut, &original, 128);
        assert_eq!(encoded[12] as usize, len % 4);
        assert_eq!(encoded[13], 8);
        assert!(check_v8_decodable(&encoded));
        let decoded = decode_wavelet_v8_mband(&lut, &encoded).unwrap();
        assert_eq!(original, decoded, "V8 pipeline failed for {} bytes", len);
    }
    assert!(check_v8_fits(4000, 128));
}

#[test]
fn v8_errors() {
    let lut = snake();
    assert_eq!(decode_wavelet_v8_mband(&lut, &[0u8; 20]), Err(CodecError::InvalidInput));
    let mut img = vec![0u8; 24];
    img[7] = 4;
    img[11] = 1;
    assert_eq!(decode_wavelet_v8_mband(&lut, &img), Err(CodecError::TruncatedImage));
}

#[test]
fn v7_framing_roundtrip() {
    let lut = snake();
    let data = ramp(1000);
    let h = effective_height(16);
    let w = calculate_grid_width(data.len(), h);
    let codes: Vec<u16> = (0..w * h).map(|k| (k * 37 % 65536) as u16).collect();
    let img = frame_wavelet_v7_cqt(&lut, &data, 16, &codes);
    assert_eq!(img.len(), 16 + 8 * w * h + data.len());
    assert_eq!(img[13], 7);
    assert_eq!(img[16], get_color_r(&lut, codes[0]));
    assert_eq!(&img[16 + 8..16 + 12], &[get_color_r(&lut, codes[1]), get_color_g(&lut, codes[1]), get_color_b(&lut, codes[1]), 255]);
    assert_eq!(decode_wavelet_v7_cqt(&img).unwrap(), data);
}

#[test]
fn color_chart_walks_the_codes() {
    let lut = snake();
    let chart = wasm_generate_color_chart_4096(&lut);
    assert_eq!(chart.len(), 4096 * 4096 * 4);
    assert_eq!(&chart[0..4], &[get_color_r(&lut, 0), get_color_g(&lut, 0), get_color_b(&lut, 0), 255]);
    let px = 16 * 4096 + 0;
    let code = 256 + 255;
    assert_eq!(&chart[4 * px..4 * px + 4], &[get_color_r(&lut, code), get_color_g(&lut, code), get_color_b(&lut, code), 255]);
    let px = 16;
    assert_eq!(chart[4 * px], get_color_r(&lut, 1));
}

#[test]
fn silence_is_black() {
    let lut = snake();
    assert_eq!((get_color_r(&lut, 0), get_color_g(&lut, 0), get_color_b(&lut, 0)), (0, 0, 0));
    let encoded = encode_wavelet_v2_bitplane(&lut, &[], 4, 0);
    assert_eq!(
        encoded,
        vec![
            0, 0, 0, 0, 0, 0, 0, 1, 0, 0, 0, 4, 0, 2, 172, 68, 0, 0, 0, 255, 0, 0, 0, 255, 0, 0, 0, 255, 0, 0, 0,
            255
        ]
    );
}

#[test]
fn stft_v8_layout_framing() {
    let lut = snake();
    let data = vec![7u8; 16];
    // 8 as the data length: 2 pairs over 4 rows, width 2, four codes per cell.
    let mut codes = vec![0u16; 2 * 4 * 4];
    codes[1] = 257;
    let out = frame_stft_cqt_v8_layout(&lut, &data, 4, &codes);
    assert_eq!(&out[0..24], &[0, 0, 0, 16, 0, 0, 0, 8, 0, 0, 0, 4, 0, 8, 172, 68, 0, 0, 0, 0, 0, 0, 0, 0]);
    assert_eq!(out.len(), 24 + 4 * codes.len());
    assert_eq!(&out[24..28], &[0, 0, 0, 255]);
    assert_eq!(
        &out[28..32],
        &[get_color_r(&lut, 257), get_color_g(&lut, 257), get_color_b(&lut, 257), 255]
    );
}

#[test]
fn test_v8_pipeline_large() {
    let lut = snake();
    let mut original = vec![0u8; 4000];
    for i in 0..4000 {
        original[i] = (i % 256) as u8;
    }

    let h = 128;
    let w = calculate_grid_width(original.len(), h);
    let grid_size = w * h;

    let num_samples = original.len() / 4;
    let mut mid_input = vec![0i64; grid_size * 4];
    let mut side_input = vec![0i64; grid_size * 4];
    for i in 0..num_samples {
        let offset = i * 4;
        let b0 = original[offset];
        let b1 = original[offset + 1];
        let b2 = original[offset + 2];
        let b3 = original[offset + 3];
        let l_sample = (((b1 as u16) << 8) | (b0 as u16)) as i16;
        let r_sample = (((b3 as u16) << 8) | (b2 as u16)) as i16;
        let (m, s) = lr_to_ms(l_sample, r_sample);
        mid_input[i] = m as i64;
        side_input[i] = s as i64;
    }

    let (s_m, d1_m, _d2_m, _d3_m) = forward_packet_4_band(&mid_input);

    let encoded = encode_wavelet_v8_mband(&lut, &original, 128);

    // Unpack the first mid coefficients, at the layout the encoder writes:
    // a grid of half the data length, four pixels per cell.
    let w_enc = calculate_grid_width(original.len() / 2, h);
    let w_png = w_enc * 4;
    for idx in 0..10 {
        let (r, c) = (idx / w_enc, idx % w_enc);
        let offset_a = 24 + (r * w_png + c * 4) * 4;
        let offset_b = offset_a + 4;
        let sm_u_rec = decode_rg_to_coefficient_raw(&lut, encoded[offset_a], encoded[offset_a + 1]);
        let dm_u_rec = decode_rg_to_coefficient_raw(&lut, encoded[offset_b], encoded[offset_b + 1]);
        println!(
            "COEF {}: packet_s={}, decoded_s={} | packet_d1={}, decoded_d={}",
            idx,
            s_m[idx],
            zigzag_decode(sm_u_rec as u32),
            d1_m[idx],
            zigzag_decode(dm_u_rec as u32)
        );
    }

    let decoded = decode_wavelet_v8_mband(&lut, &encoded).unwrap();
    assert_eq!(original, decoded, "V8 pipeline failed for large audio!");
}

#[test]
fn test_v7_pipeline_large() {
    let lut = snake();
    let mut original = vec![0u8; 4000];
    for i in 0..4000 {
        original[i] = (i % 256) as u8;
    }
    // The constant-Q codes come from floating-point analysis; any codes
    // give the same framing around the appended audio.
    let h = effective_height(128);
    let w = calculate_grid_width(original.len(), h);
    let codes: Vec<u16> = (0..w * h).map(|k| (k * 101 % 65536) as u16).collect();
    let encoded = frame_wavelet_v7_cqt(&lut, &original, 128, &codes);
    let decoded = decode_wavelet_v7_cqt(&encoded).unwrap();
    assert_eq!(original, decoded, "V7 CQT pipeline failed for large audio!");
}

#[test]
fn v2_size_error_on_huge_announced_grid() {
    let lut = snake();
    let mut img = vec![0u8; 40];
    for i in 4..12 {
        img[i] = 0xff;
    }
    img[13] = 2;
    assert!(check_v2_decodable(&img));
    assert_eq!(decode_wavelet_v2_bitplane(&lut, &img), Err(CodecError::InvalidSize));
}
