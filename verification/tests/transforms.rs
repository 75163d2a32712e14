use core_wasm::bijection::{gray_decode, gray_encode, zigzag_decode, zigzag_encode};
use core_wasm::lifting::{
    forward_1d, forward_dwt, forward_lifting_53, forward_wpd, get_even, inverse_1d, inverse_dwt,
    inverse_lifting_53, inverse_wpd,
};
use core_wasm::lifting_i64::{
    forward_lifting_53_i64, forward_packet_4_band, inverse_lifting_53_i64, inverse_packet_4_band,
};
use core_wasm::mband::{filter_fir_rust, forward_mband_4_rust, inverse_mband_4_rust, round_fixed_rust};
use core_wasm::serpentine::{
    c2, c3, decode_n, encode_n, position_fits, scale_coordinate, unscale_coordinate, wasm_decode_n, wasm_encode_n, Rgb,
};
use core_wasm::stereo::{lr_to_ms, ms_to_lr};

#[test]
fn test_lifting_53_i64_bijection() {
    let mut original = vec![0i64; 1024];
    for i in 0..1024 {
        original[i] = i as i64;
    }
    let (s, d) = forward_lifting_53_i64(&original);
    let decoded = inverse_lifting_53_i64(&s, &d, 1024);
    assert_eq!(original, decoded, "1D CDF 5/3 lifting failed!");
}

#[test]
fn test_packet_4_band_bijection() {
    let mut original = vec![0i64; 1024];
    for i in 0..1024 {
        original[i] = i as i64;
    }
    let (s, d1, d2, d3) = forward_packet_4_band(&original);
    let decoded = inverse_packet_4_band(&s, &d1, &d2, &d3, 1024);
    assert_eq!(original, decoded, "4-band packet lifting failed!");
}

#[test]
fn test_serpentine_arithmetic_bijection() {
    let m = 40;
    for n in 0..10000 {
        let rgb = decode_n(n, m);
        let n_rec = encode_n(rgb, m);
        if n != n_rec {
            println!("DIVERGENCE at index {}: RGB=({:?}), Rec={}", n, rgb, n_rec);
            assert_eq!(n, n_rec);
        }
    }
}

#[test]
fn test_scaling_bijection() {
    for v in 0..=40 {
        let scaled = scale_coordinate(v);
        let unscaled = unscale_coordinate(scaled);
        assert_eq!(v, unscaled, "Scaling failed at value {}", v);
    }
}

#[test]
fn test_lifting_53_lossless() {
    let mut original: Vec<i16> = vec![100, -50, 200, 300, -400, 500, 600, 700];
    let cloned = original.clone();
    forward_lifting_53(&mut original, 3);
    inverse_lifting_53(&mut original, 3);
    assert_eq!(cloned, original, "Lifting 5/3 failed!");
}

#[test]
fn test_ms_lossless_reversibility() {
    let test_cases: Vec<(i16, i16)> = vec![
        (0, 0),
        (100, 100),
        (-100, -100),
        (-32768, 32767),
        (32767, -32768),
        (12345, -6789),
    ];
    for (l, r) in test_cases {
        let (m, s) = lr_to_ms(l, r);
        let (l_rec, r_rec) = ms_to_lr(m, s);
        assert_eq!((l, r), (l_rec, r_rec));
    }
}

#[test]
fn test_multi_order_reversibility() {
    let test_cases: Vec<(Vec<i16>, u32)> = vec![
        (vec![100, -50, 200, 300, -400, 500, 600, 700], 0),
        (vec![100, -50, 200, 300, -400, 500, 600, 700], 1),
        (vec![100, -50, 200, 300, -400, 500, 600, 700], 2),
    ];
    for (mut sample, order) in test_cases {
        let original = sample.clone();
        forward_wpd(&mut sample, 2, order);
        inverse_wpd(&mut sample, 2, order);
        assert_eq!(sample, original, "WPD failed for order {}", order);
    }
}

#[test]
fn mid_side_exact_values() {
    assert_eq!(lr_to_ms(100, 50), (75, 50));
    assert_eq!(ms_to_lr(75, 50), (100, 50));
    assert_eq!(lr_to_ms(-32768, 32767), (32767, 1));
    assert_eq!(ms_to_lr(32767, 1), (-32768, 32767));
}

#[test]
fn mid_side_roundtrip_both_ways() {
    for &(a, b) in &[(0i16, 0i16), (1, -1), (-32768, -32768), (32767, 32767), (-7, 12)] {
        let (m, s) = lr_to_ms(a, b);
        assert_eq!(ms_to_lr(m, s), (a, b));
        let (l, r) = ms_to_lr(a, b);
        assert_eq!(lr_to_ms(l, r), (a, b));
    }
}

#[test]
fn zigzag_and_gray_exact_values() {
    assert_eq!(zigzag_encode(0), 0);
    assert_eq!(zigzag_encode(-1), 1);
    assert_eq!(zigzag_encode(1), 2);
    assert_eq!(zigzag_encode(-2), 3);
    assert_eq!(zigzag_decode(3), -2);
    assert_eq!(zigzag_decode(4), 2);
    assert_eq!(gray_encode(2), 6);
    assert_eq!(gray_encode(-1), 1);
    assert_eq!(gray_decode(6), 2);
    assert_eq!(gray_decode(1), -1);
}

#[test]
fn zigzag_and_gray_roundtrips() {
    for v in [-32768i32, -1000, -1, 0, 1, 999, 32767, i32::MIN, i32::MAX] {
        assert_eq!(zigzag_decode(zigzag_encode(v)), v);
        assert_eq!(gray_decode(gray_encode(v)), v);
    }
    for u in [0u32, 1, 2, 77, 65535, u32::MAX] {
        assert_eq!(zigzag_encode(zigzag_decode(u)), u);
        assert_eq!(gray_encode(gray_decode(u)), u);
    }
}

#[test]
fn get_even_mirrors_the_edges() {
    let even: Vec<i16> = vec![10, 20, 30];
    assert_eq!(get_even(&even, 0), 10);
    assert_eq!(get_even(&even, 2), 30);
    assert_eq!(get_even(&even, -1), 10);
    assert_eq!(get_even(&even, -2), 20);
    assert_eq!(get_even(&even, 3), 30);
    assert_eq!(get_even(&even, 4), 20);
}

#[test]
fn forward_1d_exact_values() {
    let mut a: Vec<i16> = vec![10, 20, 30, 40];
    forward_1d(&mut a, 0);
    assert_eq!(a, vec![10, 33, 0, 10]);
    inverse_1d(&mut a, 0);
    assert_eq!(a, vec![10, 20, 30, 40]);
}

#[test]
fn one_level_keeps_a_trailing_odd_sample() {
    let mut a: Vec<i16> = vec![10, 20, 30, 40, 50];
    forward_1d(&mut a, 1);
    assert_eq!(a[4], 50);
    inverse_1d(&mut a, 1);
    assert_eq!(a, vec![10, 20, 30, 40, 50]);
}

#[test]
fn dyadic_transforms_roundtrip() {
    let original: Vec<i16> = vec![5, -3, 32767, -32768, 0, 17, 200, -200, 9, 1, 2, 3];
    for order in 0..3u32 {
        let mut a = original.clone();
        forward_dwt(&mut a, 3, order);
        inverse_dwt(&mut a, 3, order);
        assert_eq!(a, original);
    }
    let mut b = original.clone();
    forward_lifting_53(&mut b, 4);
    inverse_lifting_53(&mut b, 4);
    assert_eq!(b, original);
}

#[test]
fn lifting_i64_exact_values() {
    let (s, d) = forward_lifting_53_i64(&[0, 10, 0, 10]);
    assert_eq!(s, vec![5, 5]);
    assert_eq!(d, vec![10, 10]);
    let (s, d) = forward_lifting_53_i64(&[1, 2, 3, 4, 5]);
    assert_eq!(s, vec![1, 3, 5]);
    assert_eq!(d, vec![0, 0]);
    assert_eq!(inverse_lifting_53_i64(&s, &d, 5), vec![1, 2, 3, 4, 5]);
    assert_eq!(forward_lifting_53_i64(&[]), (vec![], vec![]));
}

#[test]
fn packet_4_band_of_short_and_mixed_signals() {
    let x: Vec<i64> = vec![-32768, 32767, 0, 5, 7, -9, 100, -100];
    let (s, d1, d2, d3) = forward_packet_4_band(&x);
    assert_eq!(s.len(), 2);
    assert_eq!(inverse_packet_4_band(&s, &d1, &d2, &d3, 8), x);
}

#[test]
fn round_fixed_exact_values() {
    assert_eq!(round_fixed_rust(1572864, 20), 2);
    assert_eq!(round_fixed_rust(-1572864, 20), -2);
    assert_eq!(round_fixed_rust(1048575, 20), 1);
    assert_eq!(round_fixed_rust(524287, 20), 0);
    assert_eq!(round_fixed_rust(-524288, 20), -1);
    assert_eq!(round_fixed_rust(7, 0), 7);
}

#[test]
fn filter_fir_exact_values() {
    let one = 1i64 << 20;
    assert_eq!(filter_fir_rust(&[one, one, one], &[1, 0, 0]), vec![1, 1, 1]);
    assert_eq!(filter_fir_rust(&[0, one, 0], &[0, 1, 0]), vec![1, 0, 1]);
    assert_eq!(filter_fir_rust(&[], &[1, 2, 3]), Vec::<i64>::new());
}

#[test]
fn mband_roundtrip_and_dropped_tail() {
    let x: Vec<i64> = vec![1000, -2000, 3000, 4, 5, 6000, -7, 8, 9, 10, 11, 12];
    let (s, d1, d2, d3) = forward_mband_4_rust(&x);
    assert_eq!(s.len(), 3);
    assert_eq!(inverse_mband_4_rust(&s, &d1, &d2, &d3, 12), x);
    let zeros = vec![0i64; 8];
    let (s0, e1, e2, e3) = forward_mband_4_rust(&zeros);
    assert_eq!(s0, vec![0, 0]);
    assert_eq!(e1, vec![0, 0]);
    assert_eq!(inverse_mband_4_rust(&s0, &e1, &e2, &e3, 10), vec![0i64; 10]);
    let y: Vec<i64> = vec![1, 2, 3, 4, 5];
    let (s, d1, d2, d3) = forward_mband_4_rust(&y);
    assert_eq!(inverse_mband_4_rust(&s, &d1, &d2, &d3, 5), vec![1, 2, 3, 4, 0]);
}

#[test]
fn serpentine_exact_values() {
    assert_eq!(c2(5), 10);
    assert_eq!(c3(5), 10);
    assert_eq!(decode_n(0, 40), Rgb { r: 0, g: 0, b: 0 });
    assert_eq!(encode_n(Rgb { r: 0, g: 0, b: 0 }, 40), 0);
    assert_eq!(encode_n(Rgb { r: 40, g: 40, b: 40 }, 40), 41 * 41 * 41 - 1);
    assert_eq!(wasm_decode_n(0, 40), vec![0u16, 0, 0]);
    let p = wasm_decode_n(12345, 40);
    assert_eq!(wasm_encode_n(p[0], p[1], p[2], 40), 12345);
    assert_eq!(scale_coordinate(40), 255);
    assert_eq!(scale_coordinate(1), 6);
    assert_eq!(scale_coordinate(0), 0);
    assert_eq!(unscale_coordinate(6), 1);
    assert_eq!(unscale_coordinate(255), 40);
}

#[test]
fn serpentine_positions_past_the_walk() {
    assert_eq!(decode_n(41 * 41 * 41, 40), Rgb { r: 40, g: 41, b: 39 });
    assert_eq!(wasm_decode_n(41 * 41 * 41 + 39, 40), vec![40u16, 80, 0]);
    assert_eq!(decode_n(41 * 41 * 41 - 1, 40), Rgb { r: 40, g: 40, b: 40 });
}

#[test]
fn serpentine_walk_is_a_bijection_on_a_small_cube() {
    let m = 5u32;
    let total = (m + 1) * (m + 1) * (m + 1);
    let mut seen = vec![false; total as usize];
    for n in 0..total {
        let p = decode_n(n, m);
        assert!(p.r <= m as u16 && p.g <= m as u16 && p.b <= m as u16);
        assert_eq!(encode_n(p, m), n);
        let k = (p.r as usize * 36) + (p.g as usize * 6) + p.b as usize;
        assert!(!seen[k]);
        seen[k] = true;
    }
}

#[test]
fn serpentine_walk_on_large_cubes() {
    // Positions below 2^32 of cubes far larger than 2^32 points.
    for &m in &[2000u32, 70_000, 699_050, 1_398_100] {
        for &n in &[0u32, 1, 12_345, 4_000_000_000, u32::MAX] {
            let p = decode_n(n, m);
            assert!(p.r as u32 + p.g as u32 + p.b as u32 <= 3 * m);
            assert!(position_fits(p, m));
            assert_eq!(encode_n(p, m), n);
        }
        assert!(!position_fits(Rgb { r: 2000, g: 2000, b: 2000 }, m));
    }
    // The first shells: one point, then three.
    assert_eq!(decode_n(0, 1_398_100), Rgb { r: 0, g: 0, b: 0 });
    assert_eq!(encode_n(Rgb { r: 0, g: 0, b: 1 }, 699_050), 1);
    assert!(position_fits(Rgb { r: 40, g: 40, b: 40 }, 40));
}
