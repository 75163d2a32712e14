use vstd::prelude::*;

use crate::bijection::{spec_zigzag_decode, spec_zigzag_encode, zigzag_decode, zigzag_encode};
use crate::codec::CodecError;
use crate::grid_codec::{
    MAX_GRID_CELLS, calculate_grid_width, effective_height, grid_fits, lemma_cell, lemma_cell_of,
    lemma_grid_width, spec_channel, spec_effective_height, spec_grid_width,
};
use crate::lifting_i64::{
    forward_lifting_53_i64, inverse_lifting_53_i64, lemma_lifting_53_i64_roundtrip,
    spec_forward_lifting_53_i64, spec_inverse_lifting_53_i64,
};
use crate::packing::{
    high_byte_of, low_byte_of, lemma_be32_roundtrip, ms_pair, ms_pcm_byte, push_be16, push_be32, read_be32,
    spec_be16, spec_be32, spec_read_be32,
};
use crate::snake::{SnakeLut, decode_rg_to_coefficient_raw, get_color_b, get_color_g, get_color_r, rg_index, snake_tables_wf};
use crate::stereo::ms_to_lr;

verus! {

/// Whether the polyphase packing of `data_len` bytes fits the grid limit:
/// its grid holds two samples of each channel per cell.
pub open spec fn v8_fits(data_len: nat, h_custom: nat) -> bool {
    grid_fits(data_len / 2, h_custom)
}

/// The mid (`side == false`) or side samples of `data`: one per whole stereo
/// pair, then zeros up to `n` samples.
pub open spec fn v8_input(data: Seq<u8>, n: nat, side: bool) -> Seq<i64> {
    Seq::new(n, |i: int| if i < data.len() / 4 { spec_channel(data, i, side) as i64 } else { 0 })
}

/// `v` brought into the 16-bit range.
pub open spec fn clamp_i16(v: i64) -> i32 {
    if v < -32768 {
        -32768i32
    } else if v > 32767 {
        32767i32
    } else {
        v as i32
    }
}

/// The snake code of a coefficient: the ZigZag word of its 16-bit clamp.
pub open spec fn v8_code(v: i64) -> int {
    (spec_zigzag_encode(clamp_i16(v)) as u16) as int
}

/// The pixel of a coefficient: its snake colour, opaque.
pub open spec fn v8_pixel(colors: Seq<(u8, u8, u8)>, v: i64) -> Seq<u8> {
    let c = colors[v8_code(v)];
    seq![c.0, c.1, c.2, 255u8]
}

/// Band `q` (0 to 3: mid approximations, mid details, side approximations,
/// side details) at cell `k`.
pub open spec fn band_value(sm: Seq<i64>, dm: Seq<i64>, ss: Seq<i64>, ds: Seq<i64>, q: int, k: int) -> i64 {
    if q == 0 {
        sm[k]
    } else if q == 1 {
        dm[k]
    } else if q == 2 {
        ss[k]
    } else {
        ds[k]
    }
}

/// The pixel body: four pixels per cell, one per band.
pub open spec fn v8_body(colors: Seq<(u8, u8, u8)>, sm: Seq<i64>, dm: Seq<i64>, ss: Seq<i64>, ds: Seq<i64>) -> Seq<u8> {
    Seq::new(
        16 * sm.len(),
        |j: int| v8_pixel(colors, band_value(sm, dm, ss, ds, (j % 16) / 4, j / 16))[j % 4],
    )
}

/// The trailing bytes of `data` past its last whole stereo pair.
pub open spec fn v8_tail(data: Seq<u8>, t: int) -> u8 {
    let rem = data.len() % 4;
    let base = 4 * (data.len() / 4) as int;
    if t == 0 && rem >= 1 {
        data[base]
    } else if t == 1 && rem >= 2 {
        data[base + 1]
    } else if t == 2 && rem == 3 {
        data[base + 2]
    } else {
        0
    }
}

/// The 24-byte header: length, image width, grid height, the number of
/// trailing bytes, the version 8, the sample rate, the trailing bytes and
/// five zeros.
pub open spec fn v8_header(data: Seq<u8>, w: int, h: int) -> Seq<u8> {
    spec_be32(data.len() as u32) + spec_be32((4 * w) as u32) + spec_be32(h as u32) + seq![
        (data.len() % 4) as u8,
        8u8,
    ] + spec_be16(44100) + seq![v8_tail(data, 0), v8_tail(data, 1), v8_tail(data, 2), 0u8, 0u8, 0u8, 0u8, 0u8]
}

/// The polyphase image of `data`: one CDF 5/3 level of each channel, four
/// snake pixels per cell.
pub open spec fn spec_encode_v8(colors: Seq<(u8, u8, u8)>, data: Seq<u8>, h_custom: nat) -> Seq<u8> {
    let h = spec_effective_height(h_custom) as int;
    let w = spec_grid_width(data.len() / 2, h as nat) as int;
    let n = (2 * (w * h)) as nat;
    let (sm, dm) = spec_forward_lifting_53_i64(v8_input(data, n, false));
    let (ss, ds) = spec_forward_lifting_53_i64(v8_input(data, n, true));
    v8_header(data, w, h) + v8_body(colors, sm, dm, ss, ds)
}

/// Image width in pixels announced by a polyphase image.
pub open spec fn v8_wp(rgba: Seq<u8>) -> int {
    spec_read_be32(rgba, 4) as int
}

/// Grid width of a polyphase image.
pub open spec fn v8_w(rgba: Seq<u8>) -> int {
    v8_wp(rgba) / 4
}

/// Grid height of a polyphase image.
pub open spec fn v8_h(rgba: Seq<u8>) -> int {
    spec_read_be32(rgba, 8) as int
}

/// Offset of the pixel of band `q` of cell `k`.
pub open spec fn v8_offset(w_png: int, w: int, k: int, q: int) -> int {
    24 + 4 * ((k / w) * w_png + 4 * (k % w)) + 4 * q
}

/// Whether the last pixel of the grid ends within three bytes of the image end.
pub open spec fn v8_truncated(rgba: Seq<u8>) -> bool {
    let g = v8_w(rgba) * v8_h(rgba);
    g > 0 && v8_offset(v8_wp(rgba), v8_w(rgba), g - 1, 3) + 3 >= rgba.len()
}

/// The coefficient of the pixel at `off`.
pub open spec fn v8_read_coef(reverse: Seq<u16>, rgba: Seq<u8>, off: int) -> i64 {
    spec_zigzag_decode(reverse[rg_index(rgba[off] as int, rgba[off + 1] as int)] as u32) as i64
}

/// Band `q` as a polyphase image lays it out.
pub open spec fn v8_read_band(reverse: Seq<u16>, rgba: Seq<u8>, q: int) -> Seq<i64> {
    Seq::new(
        (v8_w(rgba) * v8_h(rgba)) as nat,
        |k: int| v8_read_coef(reverse, rgba, v8_offset(v8_wp(rgba), v8_w(rgba), k, q)),
    )
}

/// The bytes that a polyphase image decodes to: the PCM bytes of the whole
/// stereo pairs, then as many of the three header bytes as it announces.
pub open spec fn spec_decode_v8(reverse: Seq<u16>, rgba: Seq<u8>) -> Seq<u8> {
    let len = spec_read_be32(rgba, 0) as int;
    let n = (2 * (v8_w(rgba) * v8_h(rgba))) as nat;
    let mid = spec_inverse_lifting_53_i64(v8_read_band(reverse, rgba, 0), v8_read_band(reverse, rgba, 1), n);
    let side = spec_inverse_lifting_53_i64(v8_read_band(reverse, rgba, 2), v8_read_band(reverse, rgba, 3), n);
    let pairs = len / 4;
    let rem = rgba[12];
    Seq::new(
        len as nat,
        |j: int|
            if j < 4 * pairs {
                ms_pcm_byte(mid[j / 4] as i16, side[j / 4] as i16, j % 4)
            } else {
                let t = j - 4 * pairs;
                if t == 0 && rem >= 1 {
                    rgba[16]
                } else if t == 1 && rem >= 2 {
                    rgba[17]
                } else if t == 2 && rem == 3 {
                    rgba[18]
                } else {
                    0
                }
            },
    )
}

/// Whether decoding a polyphase image stays within the grid limit and,
/// once it holds its grid, reads no pair past the transformed samples.
pub open spec fn v8_decodable(rgba: Seq<u8>) -> bool {
    rgba.len() >= 24 ==> {
        &&& v8_w(rgba) * v8_h(rgba) <= MAX_GRID_CELLS
        &&& !v8_truncated(rgba) ==> spec_read_be32(rgba, 0) / 4 <= 2 * (v8_w(rgba) * v8_h(rgba))
    }
}

/// The mid and side samples of `data`, zero-padded to `n`.
fn v8_inputs(data: &[u8], n: usize) -> (res: (Vec<i64>, Vec<i64>))
    ensures
        res.0@ == v8_input(data@, n as nat, false),
        res.1@ == v8_input(data@, n as nat, true),
{
    let total = data.len();
    let pairs = total / 4;
    let mut mid: Vec<i64> = Vec::new();
    let mut side: Vec<i64> = Vec::new();
    let mut i: usize = 0;
    while i < n
        invariant
            i <= n,
            total == data@.len(),
            pairs == data@.len() / 4,
            mid@ =~= v8_input(data@, n as nat, false).subrange(0, i as int),
            side@ =~= v8_input(data@, n as nat, true).subrange(0, i as int),
        decreases n - i,
    {
        if i < pairs {
            let (m, s) = ms_pair(data, i);
            mid.push(m as i64);
            side.push(s as i64);
        } else {
            mid.push(0);
            side.push(0);
        }
        i += 1;
    }
    (mid, side)
}

/// The snake code of a coefficient.
fn v8_code_of(v: i64) -> (res: u16)
    ensures
        res == v8_code(v),
{
    let c: i64 = if v < -32768 { -32768 } else if v > 32767 { 32767 } else { v };
    zigzag_encode(c as i32) as u16
}

/// Appends the pixel of a coefficient.
fn push_v8_pixel(out: &mut Vec<u8>, lut: &SnakeLut, v: i64)
    requires
        lut.wf(),
    ensures
        final(out)@ == old(out)@ + v8_pixel(lut.colors(), v),
{
    let code = v8_code_of(v);
    out.push(get_color_r(lut, code));
    out.push(get_color_g(lut, code));
    out.push(get_color_b(lut, code));
    out.push(255u8);
    assert(final(out)@ =~= old(out)@ + v8_pixel(lut.colors(), v));
}

/// The trailing byte `t` of `data` past its last whole stereo pair.
fn v8_tail_of(data: &[u8], t: usize) -> (res: u8)
    requires
        t < 3,
    ensures
        res == v8_tail(data@, t as int),
{
    let rem = data.len() % 4;
    let base = 4 * (data.len() / 4);
    if t == 0 && rem >= 1 {
        data[base]
    } else if t == 1 && rem >= 2 {
        data[base + 1]
    } else if t == 2 && rem == 3 {
        data[base + 2]
    } else {
        0
    }
}

/// Polyphase packing: one CDF 5/3 lifting level of the mid and of the side
/// samples, each cell holding four snake pixels (mid approximation and
/// detail, side approximation and detail); the bytes past the last whole
/// stereo pair go in the header.
pub fn encode_wavelet_v8_mband(lut: &SnakeLut, data: &[u8], h_custom: usize) -> (res: Vec<u8>)
    requires
        lut.wf(),
        v8_fits(data@.len(), h_custom as nat),
    ensures
        res@ == spec_encode_v8(lut.colors(), data@, h_custom as nat),
{
    let h = effective_height(h_custom);
    proof {
        lemma_grid_width((data@.len() / 2) as nat, h as nat);
        let w = spec_grid_width((data@.len() / 2) as nat, h as nat);
        assert(h <= w * h && 8 <= w * h) by (nonlinear_arith)
            requires
                w >= 2,
                h >= 4,
        ;
    }
    let w = calculate_grid_width(data.len() / 2, h);
    let g = w * h;
    let n = 2 * g;
    let (mid_in, side_in) = v8_inputs(data, n);
    let (sm, dm) = forward_lifting_53_i64(mid_in.as_slice());
    let (ss, ds) = forward_lifting_53_i64(side_in.as_slice());
    let mut out: Vec<u8> = Vec::new();
    push_be32(&mut out, data.len() as u32);
    push_be32(&mut out, (w * 4) as u32);
    push_be32(&mut out, h as u32);
    out.push((data.len() % 4) as u8);
    out.push(8u8);
    push_be16(&mut out, 44100u16);
    out.push(v8_tail_of(data, 0));
    out.push(v8_tail_of(data, 1));
    out.push(v8_tail_of(data, 2));
    out.push(0u8);
    out.push(0u8);
    out.push(0u8);
    out.push(0u8);
    out.push(0u8);
    let ghost header = v8_header(data@, w as int, h as int);
    assert((data.len() % 4) as u8 == (data@.len() % 4) as u8);
    assert(out@ =~= header);
    assert(sm@.len() == g && dm@.len() == g && ss@.len() == g && ds@.len() == g);
    let mut k: usize = 0;
    while k < g
        invariant
            lut.wf(),
            k <= g,
            g == sm@.len(),
            g == dm@.len(),
            g == ss@.len(),
            g == ds@.len(),
            out@ =~= header + Seq::new(
                16 * k as nat,
                |j: int| v8_pixel(lut.colors(), band_value(sm@, dm@, ss@, ds@, (j % 16) / 4, j / 16))[j % 4],
            ),
        decreases g - k,
    {
        push_v8_pixel(&mut out, lut, sm[k]);
        push_v8_pixel(&mut out, lut, dm[k]);
        push_v8_pixel(&mut out, lut, ss[k]);
        push_v8_pixel(&mut out, lut, ds[k]);
        k += 1;
        assert(out@ =~= header + Seq::new(
            16 * k as nat,
            |j: int| v8_pixel(lut.colors(), band_value(sm@, dm@, ss@, ds@, (j % 16) / 4, j / 16))[j % 4],
        ));
    }
    assert(out@ =~= header + v8_body(lut.colors(), sm@, dm@, ss@, ds@));
    out
}

/// Offset of the last byte that the check for a truncated image looks at,
/// for a non-empty grid.
proof fn lemma_v8_last_offset(w_png: int, w: int, h: int)
    requires
        w > 0,
        h > 0,
    ensures
        v8_offset(w_png, w, w * h - 1, 3) == 24 + 4 * ((h - 1) * w_png + 4 * (w - 1)) + 12,
{
    assert(w * h - 1 == (h - 1) * w + (w - 1)) by (nonlinear_arith);
    lemma_cell(h - 1, w - 1, w, h);
}

/// Reads band `q` of a polyphase image.
fn read_v8_band(lut: &SnakeLut, rgba: &[u8], w_png: usize, w: usize, h: usize, q: usize) -> (res: Vec<i64>)
    requires
        lut.wf(),
        q < 4,
        w == w_png / 4,
        w * h <= MAX_GRID_CELLS,
        w * h > 0 ==> v8_offset(w_png as int, w as int, w * h - 1, 3) + 3 < rgba@.len(),
    ensures
        res@ == Seq::new(
            (w * h) as nat,
            |k: int| v8_read_coef(lut.reverse(), rgba@, v8_offset(w_png as int, w as int, k, q as int)),
        ),
{
    let g = w * h;
    let total = rgba.len();
    let ghost target = Seq::new(
        (w * h) as nat,
        |k: int| v8_read_coef(lut.reverse(), rgba@, v8_offset(w_png as int, w as int, k, q as int)),
    );
    let mut out: Vec<i64> = Vec::new();
    let mut k: usize = 0;
    while k < g
        invariant
            lut.wf(),
            total == rgba@.len(),
            q < 4,
            k <= g,
            g == w * h,
            w == w_png / 4,
            g <= MAX_GRID_CELLS,
            g > 0 ==> v8_offset(w_png as int, w as int, g - 1, 3) + 3 < rgba@.len(),
            target == Seq::new(
                (w * h) as nat,
                |k: int| v8_read_coef(lut.reverse(), rgba@, v8_offset(w_png as int, w as int, k, q as int)),
            ),
            out@ =~= target.subrange(0, k as int),
        decreases g - k,
    {
        assert(w > 0) by (nonlinear_arith)
            requires
                k < w * h,
        ;
        let r = k / w;
        let c = k % w;
        proof {
            let wi = w as int;
            let hi = h as int;
            let wp = w_png as int;
            lemma_cell_of(k as int, wi, hi);
            assert(hi > 0) by (nonlinear_arith)
                requires
                    k < wi * hi,
                    wi > 0,
            ;
            lemma_v8_last_offset(wp, wi, hi);
            assert(r * wp + 4 * c <= (hi - 1) * wp + 4 * (wi - 1)) by (nonlinear_arith)
                requires
                    0 <= r <= hi - 1,
                    0 <= c <= wi - 1,
                    wp >= 0,
            ;
            assert(0 <= r * wp) by (nonlinear_arith)
                requires
                    0 <= r,
                    wp >= 0,
            ;
        }
        let off = 24 + 4 * (r * w_png + 4 * c) + 4 * q;
        let raw = decode_rg_to_coefficient_raw(lut, rgba[off], rgba[off + 1]);
        out.push(zigzag_decode(raw as u32) as i64);
        k += 1;
    }
    out
}

/// Byte `k` (0 to 3) of the PCM form of the mid/side pair `(m, s)`.
fn ms_pcm_byte_of(m: i16, s: i16, k: usize) -> (res: u8)
    requires
        k < 4,
    ensures
        res == ms_pcm_byte(m, s, k as int),
{
    let (l, r) = ms_to_lr(m, s);
    if k == 0 {
        low_byte_of(l)
    } else if k == 1 {
        high_byte_of(l)
    } else if k == 2 {
        low_byte_of(r)
    } else {
        high_byte_of(r)
    }
}

/// Whether the last pixel of a non-empty grid ends within three bytes of
/// the image end (see [`v8_truncated`]).
fn v8_truncated_of(rgba: &[u8], w_png: usize, w: usize, h: usize) -> (res: bool)
    requires
        rgba@.len() >= 24,
        w_png == v8_wp(rgba@),
        w == v8_w(rgba@),
        h == v8_h(rgba@),
        w * h <= MAX_GRID_CELLS,
    ensures
        res == v8_truncated(rgba@),
{
    let g = w * h;
    if g == 0 {
        return false;
    }
    proof {
        assert(w > 0 && h > 0 && h <= w * h) by (nonlinear_arith)
            requires
                w * h > 0,
        ;
        lemma_v8_last_offset(w_png as int, w as int, h as int);
        assert((h - 1) * w_png <= 0x1000_0000 * 0x1_0000_0000) by (nonlinear_arith)
            requires
                0 <= h - 1 <= 0x1000_0000,
                0 <= w_png <= 0x1_0000_0000,
        ;
    }
    let last = 24 + 4 * ((h as u64 - 1) * (w_png as u64) + 4 * (w as u64 - 1)) + 12;
    last + 3 >= rgba.len() as u64
}

/// Decodes a polyphase image.
pub fn decode_wavelet_v8_mband(lut: &SnakeLut, rgba_data: &[u8]) -> (res: Result<Vec<u8>, CodecError>)
    requires
        lut.wf(),
        v8_decodable(rgba_data@),
    ensures
        rgba_data@.len() < 24 ==> res == Err::<Vec<u8>, CodecError>(CodecError::InvalidInput),
        rgba_data@.len() >= 24 && v8_truncated(rgba_data@) ==> res == Err::<Vec<u8>, CodecError>(
            CodecError::TruncatedImage,
        ),
        rgba_data@.len() >= 24 && !v8_truncated(rgba_data@) ==> res is Ok && res.unwrap()@ == spec_decode_v8(
            lut.reverse(),
            rgba_data@,
        ),
{
    if rgba_data.len() < 24 {
        return Err(CodecError::InvalidInput);
    }
    let len = read_be32(rgba_data, 0) as usize;
    let w_png = read_be32(rgba_data, 4) as usize;
    let h = read_be32(rgba_data, 8) as usize;
    let w = w_png / 4;
    let g = w * h;
    let rem = rgba_data[12];
    if v8_truncated_of(rgba_data, w_png, w, h) {
        return Err(CodecError::TruncatedImage);
    }
    let sm = read_v8_band(lut, rgba_data, w_png, w, h, 0);
    let dm = read_v8_band(lut, rgba_data, w_png, w, h, 1);
    let ss = read_v8_band(lut, rgba_data, w_png, w, h, 2);
    let ds = read_v8_band(lut, rgba_data, w_png, w, h, 3);
    let ghost rev = lut.reverse();
    assert(sm@ =~= v8_read_band(rev, rgba_data@, 0));
    assert(dm@ =~= v8_read_band(rev, rgba_data@, 1));
    assert(ss@ =~= v8_read_band(rev, rgba_data@, 2));
    assert(ds@ =~= v8_read_band(rev, rgba_data@, 3));
    let mid = inverse_lifting_53_i64(sm.as_slice(), dm.as_slice(), 2 * g);
    let side = inverse_lifting_53_i64(ss.as_slice(), ds.as_slice(), 2 * g);
    let pairs = len / 4;
    let ghost target = spec_decode_v8(rev, rgba_data@);
    let mut out: Vec<u8> = Vec::new();
    let mut j: usize = 0;
    while j < len
        invariant
            rgba_data@.len() >= 24,
            len == spec_read_be32(rgba_data@, 0),
            pairs == len / 4,
            pairs <= 2 * g,
            mid@.len() == 2 * g,
            side@.len() == 2 * g,
            rem == rgba_data@[12],
            mid@ == spec_inverse_lifting_53_i64(v8_read_band(rev, rgba_data@, 0), v8_read_band(rev, rgba_data@, 1), (2 * g) as nat),
            side@ == spec_inverse_lifting_53_i64(v8_read_band(rev, rgba_data@, 2), v8_read_band(rev, rgba_data@, 3), (2 * g) as nat),
            g == v8_w(rgba_data@) * v8_h(rgba_data@),
            target == spec_decode_v8(rev, rgba_data@),
            j <= len,
            out@ =~= target.subrange(0, j as int),
        decreases len - j,
    {
        let b = if j < 4 * pairs {
            let i = j / 4;
            ms_pcm_byte_of(mid[i] as i16, side[i] as i16, j % 4)
        } else {
            let t = j - 4 * pairs;
            if t == 0 && rem >= 1 {
                rgba_data[16]
            } else if t == 1 && rem >= 2 {
                rgba_data[17]
            } else if t == 2 && rem == 3 {
                rgba_data[18]
            } else {
                0
            }
        };
        out.push(b);
        j += 1;
    }
    Ok(out)
}

/// Whether the polyphase packing of `data_len` bytes at the requested
/// height fits the grid limit (see [`v8_fits`]).
pub fn check_v8_fits(data_len: usize, h_custom: usize) -> (res: bool)
    ensures
        res == v8_fits(data_len as nat, h_custom as nat),
{
    crate::grid_codec::check_grid_fits(data_len / 2, h_custom)
}

/// Whether a polyphase image can be decoded within the grid limit and
/// without reading past the transformed samples (see [`v8_decodable`]).
pub fn check_v8_decodable(rgba_data: &[u8]) -> (res: bool)
    ensures
        res == v8_decodable(rgba_data@),
{
    if rgba_data.len() < 24 {
        return true;
    }
    let len = read_be32(rgba_data, 0) as u64;
    let w_png = read_be32(rgba_data, 4) as u64;
    let h = read_be32(rgba_data, 8) as u64;
    let w = w_png / 4;
    assert(w * h <= 0xffff_ffffu64 * 0xffff_ffffu64) by (nonlinear_arith)
        requires
            w <= 0xffff_ffffu64,
            h <= 0xffff_ffffu64,
    ;
    let g = w * h;
    if g > MAX_GRID_CELLS as u64 {
        return false;
    }
    if v8_truncated_of(rgba_data, w_png as usize, w as usize, h as usize) {
        return true;
    }
    len / 4 <= 2 * g
}

/// The header fields read back from a polyphase image.
proof fn lemma_v8_header(data: Seq<u8>, w: int, h: int, body: Seq<u8>)
    requires
        data.len() <= u32::MAX,
        0 <= 4 * w <= u32::MAX,
        0 <= h <= u32::MAX,
    ensures
        ({
            let img = v8_header(data, w, h) + body;
            &&& img.len() == 24 + body.len()
            &&& spec_read_be32(img, 0) == data.len()
            &&& spec_read_be32(img, 4) == 4 * w
            &&& spec_read_be32(img, 8) == h
            &&& img[12] == data.len() % 4
            &&& img[16] == v8_tail(data, 0)
            &&& img[17] == v8_tail(data, 1)
            &&& img[18] == v8_tail(data, 2)
        }),
{
    let img = v8_header(data, w, h) + body;
    assert(img.subrange(0, 4) =~= spec_be32(data.len() as u32));
    assert(img.subrange(4, 8) =~= spec_be32((4 * w) as u32));
    assert(img.subrange(8, 12) =~= spec_be32(h as u32));
    lemma_be32_roundtrip(img, 0, data.len() as u32);
    lemma_be32_roundtrip(img, 4, (4 * w) as u32);
    lemma_be32_roundtrip(img, 8, h as u32);
}

/// Reading the pixel of a 16-bit coefficient gives back the coefficient.
proof fn lemma_v8_pixel_roundtrip(colors: Seq<(u8, u8, u8)>, reverse: Seq<u16>, v: i64, img: Seq<u8>, off: int)
    requires
        snake_tables_wf(colors, reverse),
        i16::MIN <= v <= i16::MAX,
        0 <= off,
        off + 4 <= img.len(),
        img.subrange(off, off + 4) == v8_pixel(colors, v),
    ensures
        v8_read_coef(reverse, img, off) == v,
{
    crate::grid_codec::lemma_zigzag_i16(v as i16);
    assert(img[off] == v8_pixel(colors, v)[0]);
    assert(img[off + 1] == v8_pixel(colors, v)[1]);
    let c = colors[v8_code(v)];
    assert(reverse[rg_index(c.0 as int, c.1 as int)] == v8_code(v));
}

/// The bands read back from a polyphase body behind its header.
proof fn lemma_v8_read_bands(
    colors: Seq<(u8, u8, u8)>,
    reverse: Seq<u16>,
    img: Seq<u8>,
    hd: Seq<u8>,
    sm: Seq<i64>,
    dm: Seq<i64>,
    ss: Seq<i64>,
    ds: Seq<i64>,
    w: int,
    h: int,
)
    requires
        snake_tables_wf(colors, reverse),
        hd.len() == 24,
        img == hd + v8_body(colors, sm, dm, ss, ds),
        w > 0,
        h > 0,
        sm.len() == w * h,
        dm.len() == w * h,
        ss.len() == w * h,
        ds.len() == w * h,
        v8_wp(img) == 4 * w,
        v8_h(img) == h,
        forall|k: int| 0 <= k < w * h ==> i16::MIN <= #[trigger] sm[k] <= i16::MAX,
        forall|k: int| 0 <= k < w * h ==> i16::MIN <= #[trigger] dm[k] <= i16::MAX,
        forall|k: int| 0 <= k < w * h ==> i16::MIN <= #[trigger] ss[k] <= i16::MAX,
        forall|k: int| 0 <= k < w * h ==> i16::MIN <= #[trigger] ds[k] <= i16::MAX,
    ensures
        v8_read_band(reverse, img, 0) == sm,
        v8_read_band(reverse, img, 1) == dm,
        v8_read_band(reverse, img, 2) == ss,
        v8_read_band(reverse, img, 3) == ds,
{
    let body = v8_body(colors, sm, dm, ss, ds);
    assert(v8_w(img) == w);
    assert forall|q: int, k: int| 0 <= q < 4 && 0 <= k < w * h implies #[trigger] v8_read_coef(
        reverse,
        img,
        v8_offset(4 * w, w, k, q),
    ) == band_value(sm, dm, ss, ds, q, k) by {
        lemma_cell_of(k, w, h);
        assert((k / w) * (4 * w) + 4 * (k % w) == 4 * k) by (nonlinear_arith)
            requires
                k == (k / w) * w + k % w,
        ;
        let off = 24 + 16 * k + 4 * q;
        assert(v8_offset(4 * w, w, k, q) == off);
        let v = band_value(sm, dm, ss, ds, q, k);
        assert forall|i: int| 0 <= i < 4 implies #[trigger] img.subrange(off, off + 4)[i] == v8_pixel(colors, v)[i] by {
            assert(img[off + i] == body[16 * k + 4 * q + i]);
            assert((16 * k + 4 * q + i) / 16 == k);
            assert((16 * k + 4 * q + i) % 16 == 4 * q + i);
            assert((16 * k + 4 * q + i) % 4 == i);
        }
        assert(img.subrange(off, off + 4) =~= v8_pixel(colors, v));
        lemma_v8_pixel_roundtrip(colors, reverse, v, img, off);
    }
    assert forall|q: int| 0 <= q < 4 implies #[trigger] v8_read_band(reverse, img, q) =~= Seq::new(
        (w * h) as nat,
        |k: int| band_value(sm, dm, ss, ds, q, k),
    ) by {
        assert forall|k: int| 0 <= k < w * h implies #[trigger] v8_read_band(reverse, img, q)[k] == band_value(
            sm,
            dm,
            ss,
            ds,
            q,
            k,
        ) by {
            assert(v8_read_coef(reverse, img, v8_offset(4 * w, w, k, q)) == band_value(sm, dm, ss, ds, q, k));
        }
    }
    assert(v8_read_band(reverse, img, 0) =~= sm);
    assert(v8_read_band(reverse, img, 1) =~= dm);
    assert(v8_read_band(reverse, img, 2) =~= ss);
    assert(v8_read_band(reverse, img, 3) =~= ds);
}

/// The PCM bytes decoded from the samples of `data` are `data`.
proof fn lemma_v8_pcm(data: Seq<u8>, mid: Seq<i64>, side: Seq<i64>, img: Seq<u8>, n: nat)
    requires
        mid == v8_input(data, n, false),
        side == v8_input(data, n, true),
        data.len() / 4 <= n,
        img.len() >= 24,
        spec_read_be32(img, 0) == data.len(),
        img[12] == data.len() % 4,
        img[16] == v8_tail(data, 0),
        img[17] == v8_tail(data, 1),
        img[18] == v8_tail(data, 2),
    ensures
        ({
            let len = data.len() as int;
            let pairs = len / 4;
            let rem = img[12];
            Seq::new(
                len as nat,
                |j: int|
                    if j < 4 * pairs {
                        ms_pcm_byte(mid[j / 4] as i16, side[j / 4] as i16, j % 4)
                    } else {
                        let t = j - 4 * pairs;
                        if t == 0 && rem >= 1 {
                            img[16]
                        } else if t == 1 && rem >= 2 {
                            img[17]
                        } else if t == 2 && rem == 3 {
                            img[18]
                        } else {
                            0
                        }
                    },
            ) == data
        }),
{
    let len = data.len() as int;
    let pairs = len / 4;
    let rem = img[12];
    let out = Seq::new(
        len as nat,
        |j: int|
            if j < 4 * pairs {
                ms_pcm_byte(mid[j / 4] as i16, side[j / 4] as i16, j % 4)
            } else {
                let t = j - 4 * pairs;
                if t == 0 && rem >= 1 {
                    img[16]
                } else if t == 1 && rem >= 2 {
                    img[17]
                } else if t == 2 && rem == 3 {
                    img[18]
                } else {
                    0
                }
            },
    );
    assert forall|j: int| 0 <= j < len implies #[trigger] out[j] == data[j] by {
        if j < 4 * pairs {
            let i = j / 4;
            assert(mid[i] as i16 == spec_channel(data, i, false));
            assert(side[i] as i16 == spec_channel(data, i, true));
            crate::packing::lemma_pcm_roundtrip(data, i, j % 4);
        }
    }
    assert(out =~= data);
}

/// Decoding a polyphase image gives back the packed bytes, for every snake.
pub proof fn lemma_v8_roundtrip(colors: Seq<(u8, u8, u8)>, reverse: Seq<u16>, data: Seq<u8>, h_custom: nat)
    requires
        snake_tables_wf(colors, reverse),
        v8_fits(data.len(), h_custom),
    ensures
        ({
            let img = spec_encode_v8(colors, data, h_custom);
            &&& img.len() >= 24
            &&& !v8_truncated(img)
            &&& v8_decodable(img)
            &&& spec_decode_v8(reverse, img) == data
        }),
{
    let img = spec_encode_v8(colors, data, h_custom);
    let h = spec_effective_height(h_custom) as int;
    let w = spec_grid_width(data.len() / 2, h as nat) as int;
    let g = w * h;
    let n = (2 * g) as nat;
    lemma_grid_width(data.len() / 2, h as nat);
    assert(w <= g && h <= g && 8 <= g) by (nonlinear_arith)
        requires
            w >= 2,
            h >= 4,
            g == w * h,
    ;
    let mid_in = v8_input(data, n, false);
    let side_in = v8_input(data, n, true);
    let (sm, dm) = spec_forward_lifting_53_i64(mid_in);
    let (ss, ds) = spec_forward_lifting_53_i64(side_in);
    let body = v8_body(colors, sm, dm, ss, ds);
    let hd = v8_header(data, w, h);
    assert(img == hd + body);
    lemma_v8_header(data, w, h, body);
    assert(hd.len() == 24);
    lemma_v8_read_bands(colors, reverse, img, hd, sm, dm, ss, ds, w, h);
    lemma_v8_last_offset(4 * w, w, h);
    assert((h - 1) * (4 * w) + 4 * (w - 1) == 4 * g - 4) by (nonlinear_arith)
        requires
            g == w * h,
    ;
    assert(!v8_truncated(img));
    lemma_lifting_53_i64_roundtrip(mid_in);
    lemma_lifting_53_i64_roundtrip(side_in);
    lemma_v8_pcm(data, mid_in, side_in, img, n);
}

} // verus!
