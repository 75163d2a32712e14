use vstd::prelude::*;

use crate::bijection::{gray_encode, spec_gray_decode, spec_gray_encode};
use crate::codec::CodecError;
use crate::grid_codec::{
    GridTransform, MAX_GRID_CELLS, effective_height, floor_log2, floor_log2_of, lemma_pcm_of_samples,
    lemma_read_header, lemma_transform_grid_inverse, lemma_transform_grid_len, pcm_bytes, sample_grid,
    sample_grids, spec_effective_height, spec_header, spec_pcm_bytes, transform_grid,
    transform_grid_in_place,
};
use crate::packing::{push_be16, push_be32, read_be32, spec_read_be32};
use crate::snake::{
    SnakeLut, decode_rg_to_coefficient, get_color_g, get_color_r, rg_index, snake_tables_wf,
};

verus! {

/// Width of the bitplane grid of height `h` for `data_len` bytes: enough
/// columns for every stereo pair, at least one.
pub open spec fn spec_v2_width(data_len: nat, h: nat) -> nat {
    let num_pairs = (data_len + 3) / 4;
    let w0 = (num_pairs + h - 1) / (h as int);
    if w0 < 1 { 1 } else { w0 as nat }
}

/// Whether the bitplane packing of `data_len` bytes fits the grid limit.
pub open spec fn v2_fits(data_len: nat, h_custom: nat) -> bool {
    let h = spec_effective_height(h_custom);
    spec_v2_width(data_len, h) * h <= MAX_GRID_CELLS
}

/// The snake code of a coefficient: its Gray-coded ZigZag word.
pub open spec fn gray_code(v: i16) -> int {
    (spec_gray_encode(v as i32) % 65536) as int
}

/// The pixel of a mid and a side coefficient: red and green of the mid
/// colour, red of the side colour, and its green inverted in alpha.
pub open spec fn spec_v2_pixel(colors: Seq<(u8, u8, u8)>, m: i16, s: i16) -> Seq<u8> {
    let cm = colors[gray_code(m)];
    let cs = colors[gray_code(s)];
    seq![cm.0, cm.1, cs.0, (255 - cs.1) as u8]
}

/// The pixel body of the mid and side grids.
pub open spec fn spec_v2_body(colors: Seq<(u8, u8, u8)>, mid: Seq<i16>, side: Seq<i16>) -> Seq<u8> {
    Seq::new(4 * mid.len(), |j: int| spec_v2_pixel(colors, mid[j / 4], side[j / 4])[j % 4])
}

/// The bitplane image of `data`: header, then one pixel per cell of the
/// wavelet packet transform of order `wavelet_type`.
pub open spec fn spec_encode_v2(colors: Seq<(u8, u8, u8)>, data: Seq<u8>, h_custom: nat, wavelet_type: u32) -> Seq<u8> {
    let h = spec_effective_height(h_custom) as int;
    let w = spec_v2_width(data.len(), h as nat) as int;
    let depth = floor_log2(h as nat);
    let t = GridTransform::Packet(wavelet_type);
    let mid = transform_grid(t, sample_grid(data, t, w, h, false), w, h, depth, true);
    let side = transform_grid(t, sample_grid(data, t, w, h, true), w, h, depth, true);
    spec_header(data.len() as u32, w as u32, h as u32, wavelet_type as u8, 2) + spec_v2_body(colors, mid, side)
}

/// The mid (`side == false`) or side coefficient of the pixel at `off`.
pub open spec fn v2_read_coef(reverse: Seq<u16>, rgba: Seq<u8>, off: int, side: bool) -> i16 {
    let r = if side { rgba[off + 2] } else { rgba[off] };
    let g = if side { 255 - rgba[off + 3] } else { rgba[off + 1] as int };
    spec_gray_decode(reverse[rg_index(r as int, g)] as u32) as i16
}

/// Grid width of a bitplane image.
pub open spec fn v2_w(rgba: Seq<u8>) -> int {
    spec_read_be32(rgba, 4) as int
}

/// Grid height of a bitplane image.
pub open spec fn v2_h(rgba: Seq<u8>) -> int {
    spec_read_be32(rgba, 8) as int
}

/// The transform of a bitplane image, of the order in its byte 12.
pub open spec fn v2_transform(rgba: Seq<u8>) -> GridTransform {
    GridTransform::Packet(rgba[12] as u32)
}

/// The coefficient grid of one channel of a bitplane image.
pub open spec fn v2_read_grid(reverse: Seq<u16>, rgba: Seq<u8>, side: bool) -> Seq<i16> {
    Seq::new((v2_w(rgba) * v2_h(rgba)) as nat, |k: int| v2_read_coef(reverse, rgba, 16 + 4 * k, side))
}

/// The bytes that a bitplane image decodes to.
pub open spec fn spec_decode_v2(reverse: Seq<u16>, rgba: Seq<u8>) -> Seq<u8> {
    let w = v2_w(rgba);
    let h = v2_h(rgba);
    let t = v2_transform(rgba);
    let depth = floor_log2(h as nat);
    let mid = transform_grid(t, v2_read_grid(reverse, rgba, false), w, h, depth, false);
    let side = transform_grid(t, v2_read_grid(reverse, rgba, true), w, h, depth, false);
    spec_pcm_bytes(t, mid, side, w, h, spec_read_be32(rgba, 0) as int)
}

/// Whether a bitplane image holds a pixel for each cell of its grid.
pub open spec fn v2_size_ok(rgba: Seq<u8>) -> bool {
    rgba.len() >= 16 + 4 * (v2_w(rgba) * v2_h(rgba))
}

/// Whether decoding a bitplane image whose size is right stays within the
/// grid limit and reads no pair past the grid.
pub open spec fn v2_decodable(rgba: Seq<u8>) -> bool {
    rgba.len() >= 16 && v2_size_ok(rgba) ==> {
        &&& v2_w(rgba) * v2_h(rgba) <= MAX_GRID_CELLS
        &&& (spec_read_be32(rgba, 0) + 3) / 4 <= v2_w(rgba) * v2_h(rgba)
    }
}

/// The Gray code of a 16-bit value fits 16 bits.
proof fn lemma_gray_i16(v: i16)
    ensures
        spec_gray_encode(v as i32) < 65536,
        gray_code(v) == spec_gray_encode(v as i32),
        spec_gray_decode(gray_code(v) as u32) as i16 == v,
{
    crate::grid_codec::lemma_zigzag_i16(v);
    let z = crate::bijection::spec_zigzag_encode(v as i32);
    assert(z ^ (z >> 1u32) < 65536) by (bit_vector)
        requires
            z <= 65535,
    ;
    crate::bijection::lemma_gray_decode_encode(v as i32);
}

/// Appends the pixel of a mid and a side coefficient.
fn push_v2_pixel(out: &mut Vec<u8>, lut: &SnakeLut, m: i16, s: i16)
    requires
        lut.wf(),
    ensures
        final(out)@ == old(out)@ + spec_v2_pixel(lut.colors(), m, s),
{
    proof {
        lemma_gray_i16(m);
        lemma_gray_i16(s);
    }
    let gm = (gray_encode(m as i32) % 65536) as u16;
    let gs = (gray_encode(s as i32) % 65536) as u16;
    out.push(get_color_r(lut, gm));
    out.push(get_color_g(lut, gm));
    out.push(get_color_r(lut, gs));
    out.push(255 - get_color_g(lut, gs));
    assert(final(out)@ =~= old(out)@ + spec_v2_pixel(lut.colors(), m, s));
}

/// Bitplane packing: wavelet packet transform of order `wavelet_type`, each
/// cell one pixel holding the snake colours of its mid and side coefficients.
pub fn encode_wavelet_v2_bitplane(lut: &SnakeLut, data: &[u8], h_custom: usize, wavelet_type: u32) -> (res: Vec<u8>)
    requires
        lut.wf(),
        v2_fits(data@.len(), h_custom as nat),
    ensures
        res@ == spec_encode_v2(lut.colors(), data@, h_custom as nat, wavelet_type),
{
    let h = effective_height(h_custom);
    let ghost wi = spec_v2_width(data@.len(), h as nat);
    proof {
        assert(h <= wi * h) by (nonlinear_arith)
            requires
                wi >= 1,
        ;
        let np = (data@.len() + 3) / 4;
        let w0 = (np + h - 1) / (h as int);
        assert(w0 * h >= np) by (nonlinear_arith)
            requires
                w0 == (np + h - 1) / (h as int),
                h >= 1,
                np >= 0,
        ;
        assert(wi * h >= w0 * h) by (nonlinear_arith)
            requires
                wi >= w0,
                h >= 1,
        ;
    }
    let num_pairs = (data.len() + 3) / 4;
    let mut w = (num_pairs + h - 1) / h;
    if w < 1 {
        w = 1;
    }
    let t = GridTransform::Packet(wavelet_type);
    let g = w * h;
    let (mut mid, mut side) = sample_grids(data, t, w, h);
    let depth = floor_log2_of(h);
    transform_grid_in_place(t, &mut mid, w, h, depth, true);
    transform_grid_in_place(t, &mut side, w, h, depth, true);
    let mut out: Vec<u8> = Vec::new();
    push_be32(&mut out, data.len() as u32);
    push_be32(&mut out, w as u32);
    push_be32(&mut out, h as u32);
    out.push(wavelet_type as u8);
    out.push(2u8);
    push_be16(&mut out, 44100u16);
    let ghost header = spec_header(data@.len() as u32, w as u32, h as u32, wavelet_type as u8, 2);
    assert(out@ =~= header);
    let mut k: usize = 0;
    while k < g
        invariant
            lut.wf(),
            k <= g,
            g == mid@.len(),
            g == side@.len(),
            out@ =~= header + Seq::new(
                4 * k as nat,
                |j: int| spec_v2_pixel(lut.colors(), mid@[j / 4], side@[j / 4])[j % 4],
            ),
        decreases g - k,
    {
        push_v2_pixel(&mut out, lut, mid[k], side[k]);
        k += 1;
        assert(out@ =~= header + Seq::new(
            4 * k as nat,
            |j: int| spec_v2_pixel(lut.colors(), mid@[j / 4], side@[j / 4])[j % 4],
        ));
    }
    assert(out@ =~= header + spec_v2_body(lut.colors(), mid@, side@));
    out
}

/// Reads the mid and side grids of a bitplane image.
fn read_v2_grids(lut: &SnakeLut, rgba: &[u8], g: usize) -> (res: (Vec<i16>, Vec<i16>))
    requires
        lut.wf(),
        16 + 4 * g <= rgba@.len(),
    ensures
        res.0@ == Seq::new(g as nat, |k: int| v2_read_coef(lut.reverse(), rgba@, 16 + 4 * k, false)),
        res.1@ == Seq::new(g as nat, |k: int| v2_read_coef(lut.reverse(), rgba@, 16 + 4 * k, true)),
{
    let total = rgba.len();
    let mut mid: Vec<i16> = Vec::new();
    let mut side: Vec<i16> = Vec::new();
    let mut k: usize = 0;
    while k < g
        invariant
            total == rgba@.len(),
            lut.wf(),
            k <= g,
            16 + 4 * g <= rgba@.len(),
            mid@ =~= Seq::new(g as nat, |k: int| v2_read_coef(lut.reverse(), rgba@, 16 + 4 * k, false)).subrange(
                0,
                k as int,
            ),
            side@ =~= Seq::new(g as nat, |k: int| v2_read_coef(lut.reverse(), rgba@, 16 + 4 * k, true)).subrange(
                0,
                k as int,
            ),
        decreases g - k,
    {
        let off = 16 + 4 * k;
        let a = rgba[off + 3];
        mid.push(decode_rg_to_coefficient(lut, rgba[off], rgba[off + 1]));
        side.push(decode_rg_to_coefficient(lut, rgba[off + 2], 255 - a));
        k += 1;
    }
    (mid, side)
}

/// Decodes a bitplane image.
pub fn decode_wavelet_v2_bitplane(lut: &SnakeLut, rgba_data: &[u8]) -> (res: Result<Vec<u8>, CodecError>)
    requires
        lut.wf(),
        v2_decodable(rgba_data@),
    ensures
        rgba_data@.len() < 16 ==> res == Err::<Vec<u8>, CodecError>(CodecError::InvalidData(2)),
        rgba_data@.len() >= 16 && !v2_size_ok(rgba_data@) ==> res == Err::<Vec<u8>, CodecError>(
            CodecError::InvalidSize,
        ),
        rgba_data@.len() >= 16 && v2_size_ok(rgba_data@) ==> res is Ok && res.unwrap()@ == spec_decode_v2(
            lut.reverse(),
            rgba_data@,
        ),
{
    if rgba_data.len() < 16 {
        return Err(CodecError::InvalidData(2));
    }
    let w64 = read_be32(rgba_data, 4) as u64;
    let h64 = read_be32(rgba_data, 8) as u64;
    assert(w64 * h64 <= 0xffff_ffffu64 * 0xffff_ffffu64) by (nonlinear_arith)
        requires
            w64 <= 0xffff_ffffu64,
            h64 <= 0xffff_ffffu64,
    ;
    let g64 = w64 * h64;
    if (rgba_data.len() as u128) < 16 + 4 * (g64 as u128) {
        return Err(CodecError::InvalidSize);
    }
    let len = read_be32(rgba_data, 0) as usize;
    let w = w64 as usize;
    let h = h64 as usize;
    let wavelet_type = rgba_data[12] as u32;
    let g = w * h;
    let t = GridTransform::Packet(wavelet_type);
    let (mut mid, mut side) = read_v2_grids(lut, rgba_data, g);
    assert(mid@ =~= v2_read_grid(lut.reverse(), rgba_data@, false));
    assert(side@ =~= v2_read_grid(lut.reverse(), rgba_data@, true));
    let depth = floor_log2_of(h);
    transform_grid_in_place(t, &mut mid, w, h, depth, false);
    transform_grid_in_place(t, &mut side, w, h, depth, false);
    Ok(pcm_bytes(t, &mid, &side, w, h, len))
}

/// The default wavelet packing: the bitplane packing.
pub fn encode_wavelet(lut: &SnakeLut, data: &[u8], h_custom: usize, wavelet_type: u32) -> (res: Vec<u8>)
    requires
        lut.wf(),
        v2_fits(data@.len(), h_custom as nat),
    ensures
        res@ == spec_encode_v2(lut.colors(), data@, h_custom as nat, wavelet_type),
{
    encode_wavelet_v2_bitplane(lut, data, h_custom, wavelet_type)
}

/// Decodes the default wavelet packing.
pub fn decode_wavelet(lut: &SnakeLut, rgba_data: &[u8]) -> (res: Result<Vec<u8>, CodecError>)
    requires
        lut.wf(),
        v2_decodable(rgba_data@),
    ensures
        rgba_data@.len() < 16 ==> res == Err::<Vec<u8>, CodecError>(CodecError::InvalidData(2)),
        rgba_data@.len() >= 16 && !v2_size_ok(rgba_data@) ==> res == Err::<Vec<u8>, CodecError>(
            CodecError::InvalidSize,
        ),
        rgba_data@.len() >= 16 && v2_size_ok(rgba_data@) ==> res is Ok && res.unwrap()@ == spec_decode_v2(
            lut.reverse(),
            rgba_data@,
        ),
{
    decode_wavelet_v2_bitplane(lut, rgba_data)
}

/// Whether the bitplane packing of `data_len` bytes at the requested height
/// fits the grid limit (see [`v2_fits`]).
pub fn check_v2_fits(data_len: usize, h_custom: usize) -> (res: bool)
    ensures
        res == v2_fits(data_len as nat, h_custom as nat),
{
    let h = effective_height(h_custom) as u128;
    assert(h >= 4);
    let num_pairs = (data_len as u128 + 3) / 4;
    let x = num_pairs + h - 1;
    let mut w = x / h;
    assert(w <= x) by (nonlinear_arith)
        requires
            w == x / h,
            h >= 1,
    ;
    if w < 1 {
        w = 1;
    }
    if h > MAX_GRID_CELLS as u128 {
        assert(w * h >= h) by (nonlinear_arith)
            requires
                w >= 1,
                h >= 0,
        ;
        return false;
    }
    assert(w * h <= 0x4_0000_0000_0000_0000u128 * 0x1000_0000u128) by (nonlinear_arith)
        requires
            w <= 0x4_0000_0000_0000_0000u128,
            h <= 0x1000_0000u128,
    ;
    w * h <= MAX_GRID_CELLS as u128
}

/// Whether a bitplane image can be decoded within the grid limit and
/// without reading past a grid (see [`v2_decodable`]).
pub fn check_v2_decodable(rgba_data: &[u8]) -> (res: bool)
    ensures
        res == v2_decodable(rgba_data@),
{
    if rgba_data.len() < 16 {
        return true;
    }
    let len = read_be32(rgba_data, 0) as u64;
    let w = read_be32(rgba_data, 4) as u64;
    let h = read_be32(rgba_data, 8) as u64;
    assert(w * h <= 0xffff_ffffu64 * 0xffff_ffffu64) by (nonlinear_arith)
        requires
            w <= 0xffff_ffffu64,
            h <= 0xffff_ffffu64,
    ;
    let g = w * h;
    if (rgba_data.len() as u128) < 16 + 4 * (g as u128) {
        return true;
    }
    g <= MAX_GRID_CELLS as u64 && (len + 3) / 4 <= g
}

/// The coefficients read at the pixel of cell `k` of a body behind a 16-byte header.
proof fn lemma_v2_read_body(
    colors: Seq<(u8, u8, u8)>,
    reverse: Seq<u16>,
    hd: Seq<u8>,
    mid: Seq<i16>,
    side: Seq<i16>,
    k: int,
)
    requires
        snake_tables_wf(colors, reverse),
        hd.len() == 16,
        mid.len() == side.len(),
        0 <= k < mid.len(),
    ensures
        v2_read_coef(reverse, hd + spec_v2_body(colors, mid, side), 16 + 4 * k, false) == mid[k],
        v2_read_coef(reverse, hd + spec_v2_body(colors, mid, side), 16 + 4 * k, true) == side[k],
{
    let body = spec_v2_body(colors, mid, side);
    let img = hd + body;
    let off = 16 + 4 * k;
    assert(img[off] == body[4 * k]);
    assert(img[off + 1] == body[4 * k + 1]);
    assert(img[off + 2] == body[4 * k + 2]);
    assert(img[off + 3] == body[4 * k + 3]);
    assert((4 * k) / 4 == k && (4 * k + 1) / 4 == k && (4 * k + 2) / 4 == k && (4 * k + 3) / 4 == k);
    assert((4 * k + 1) % 4 == 1 && (4 * k + 2) % 4 == 2 && (4 * k + 3) % 4 == 3 && (4 * k) % 4 == 0);
    lemma_gray_i16(mid[k]);
    lemma_gray_i16(side[k]);
    let cm = colors[gray_code(mid[k])];
    let cs = colors[gray_code(side[k])];
    assert(reverse[rg_index(cm.0 as int, cm.1 as int)] == gray_code(mid[k]));
    assert(reverse[rg_index(cs.0 as int, cs.1 as int)] == gray_code(side[k]));
}

/// The grids read back from a bitplane body behind a header announcing its size.
#[verifier::spinoff_prover]
proof fn lemma_v2_read_grids(
    colors: Seq<(u8, u8, u8)>,
    reverse: Seq<u16>,
    img: Seq<u8>,
    hd: Seq<u8>,
    mid: Seq<i16>,
    side: Seq<i16>,
    w: int,
    h: int,
)
    requires
        snake_tables_wf(colors, reverse),
        hd.len() == 16,
        img == hd + spec_v2_body(colors, mid, side),
        mid.len() == w * h,
        side.len() == w * h,
        v2_w(img) == w,
        v2_h(img) == h,
    ensures
        v2_read_grid(reverse, img, false) == mid,
        v2_read_grid(reverse, img, true) == side,
{
    let gm = v2_read_grid(reverse, img, false);
    let gs = v2_read_grid(reverse, img, true);
    assert(gm.len() == w * h);
    assert forall|k: int| 0 <= k < w * h implies #[trigger] gm[k] == mid[k] by {
        lemma_v2_read_body(colors, reverse, hd, mid, side, k);
    }
    assert forall|k: int| 0 <= k < w * h implies #[trigger] gs[k] == side[k] by {
        lemma_v2_read_body(colors, reverse, hd, mid, side, k);
    }
    assert(gm =~= mid);
    assert(gs =~= side);
}

/// Decoding a bitplane image gives back the packed bytes, for every filter
/// order that fits the parameter byte and every snake.
pub proof fn lemma_v2_roundtrip(
    colors: Seq<(u8, u8, u8)>,
    reverse: Seq<u16>,
    data: Seq<u8>,
    h_custom: nat,
    wavelet_type: u32,
)
    requires
        snake_tables_wf(colors, reverse),
        v2_fits(data.len(), h_custom),
        wavelet_type < 256,
    ensures
        ({
            let img = spec_encode_v2(colors, data, h_custom, wavelet_type);
            &&& img.len() >= 16
            &&& v2_size_ok(img)
            &&& v2_decodable(img)
            &&& v2_transform(img) == GridTransform::Packet(wavelet_type)
            &&& spec_decode_v2(reverse, img) == data
        }),
{
    let img = spec_encode_v2(colors, data, h_custom, wavelet_type);
    let h = spec_effective_height(h_custom) as int;
    let w = spec_v2_width(data.len(), h as nat) as int;
    let depth = floor_log2(h as nat);
    let t = GridTransform::Packet(wavelet_type);
    let len = data.len() as int;
    lemma_v2_width(data.len(), h as nat);
    let g_mid = sample_grid(data, t, w, h, false);
    let g_side = sample_grid(data, t, w, h, true);
    let mid = transform_grid(t, g_mid, w, h, depth, true);
    let side = transform_grid(t, g_side, w, h, depth, true);
    lemma_transform_grid_len(t, g_mid, w, h, depth, true);
    lemma_transform_grid_len(t, g_side, w, h, depth, true);
    let body = spec_v2_body(colors, mid, side);
    let hd = spec_header(len as u32, w as u32, h as u32, wavelet_type as u8, 2);
    lemma_read_header(len as u32, w as u32, h as u32, wavelet_type as u8, 2, body);
    assert(img == hd + body);
    assert(hd.len() == 16);
    assert(v2_w(img) == w && v2_h(img) == h);
    assert(spec_read_be32(img, 0) == len);
    assert(v2_transform(img) == t);
    lemma_v2_read_grids(colors, reverse, img, hd, mid, side, w, h);
    lemma_transform_grid_inverse(t, g_mid, w, h, depth);
    lemma_transform_grid_inverse(t, g_side, w, h, depth);
    lemma_pcm_of_samples(data, t, w, h);
}

/// The bitplane grid holds every stereo pair of the data.
proof fn lemma_v2_width(data_len: nat, h: nat)
    requires
        h >= 1,
    ensures
        spec_v2_width(data_len, h) >= 1,
        spec_v2_width(data_len, h) * h >= (data_len + 3) / 4,
        4 * (spec_v2_width(data_len, h) * h) >= data_len,
        spec_v2_width(data_len, h) <= spec_v2_width(data_len, h) * h,
        h <= spec_v2_width(data_len, h) * h,
{
    let np = (data_len + 3) / 4;
    let w0 = (np + h - 1) / (h as int);
    let w = spec_v2_width(data_len, h);
    assert(w0 * h >= np) by (nonlinear_arith)
        requires
            w0 == (np + h - 1) / (h as int),
            h >= 1,
            np >= 0,
    ;
    assert(w * h >= w0 * h && w <= w * h && h <= w * h) by (nonlinear_arith)
        requires
            w >= w0,
            w >= 1,
            h >= 1,
    ;
}

} // verus!
