use vstd::prelude::*;

use crate::bijection::{spec_zigzag_decode, spec_zigzag_encode, zigzag_decode, zigzag_encode};
use crate::lifting::{
    LiftingFilter, MAX_LIFTING_LEN, forward_dwt, forward_lifting_53, forward_wpd, inverse_dwt,
    inverse_lifting_53, inverse_wpd, lemma_dyadic_lengths, lemma_inverse_dyadic_of_forward_dyadic,
    lemma_inverse_packet_of_forward_packet, lemma_packet_lengths,
    spec_forward_dyadic, spec_forward_packet, spec_inverse_dyadic, spec_inverse_packet,
};
use crate::packing::{
    lemma_be32_roundtrip, high_byte_of, low_byte_of, ms_pair, ms_pcm_byte, push_be16, push_be32, read_be32, spec_be16,
    spec_be32, spec_ms_pair, spec_read_be32,
};
use crate::stereo::ms_to_lr;
use crate::codec::CodecError;
use crate::serpentine::{
    decode_n, encode_n, in_cube, scale_coordinate, spec_scale_coordinate, spec_serpentine_index,
    spec_unscale_coordinate, unscale_coordinate, Rgb,
};

verus! {

/// Side length of the colour cube that the serpentine pixels walk.
pub const SERPENTINE_SIDE: u32 = 40;

/// Largest number of cells of a coefficient grid.
pub const MAX_GRID_CELLS: usize = 0x0fff_ffff;

/// How one 16-bit coefficient becomes the four bytes of a pixel.
#[derive(Clone, Copy, PartialEq, Eq, Debug)]
pub enum PixelStyle {
    /// The ZigZag code, big-endian, in red and green; blue 0, alpha 255.
    Word,
    /// The point of the serpentine walk of `[0, 40]^3` at the ZigZag code,
    /// each coordinate spread over the byte range; alpha 255.
    Serpentine,
}

/// How the samples fill the grid and how the grid is transformed.
#[derive(Clone, Copy, PartialEq, Eq, Debug)]
pub enum GridLayout {
    /// Row-major samples, one wavelet packet decomposition of the whole grid.
    Packet,
    /// Column-major samples, one dyadic decomposition per column.
    Columns,
}

/// The point of the walk of `[0, m]^3` at position `n`.
pub open spec fn spec_serpentine_point(n: int, m: int) -> (int, int, int) {
    choose|p: (int, int, int)| in_cube(p.0, p.1, p.2, m) && spec_serpentine_index(p.0, p.1, p.2, m) == n
}

/// The four bytes of the pixel of a coefficient.
pub open spec fn spec_pixel(style: PixelStyle, coef: i16) -> Seq<u8> {
    let z = spec_zigzag_encode(coef as i32);
    match style {
        PixelStyle::Word => seq![(z / 256) as u8, (z % 256) as u8, 0u8, 255u8],
        PixelStyle::Serpentine => {
            let p = spec_serpentine_point(z as int, SERPENTINE_SIDE as int);
            seq![
                spec_scale_coordinate(p.0) as u8,
                spec_scale_coordinate(p.1) as u8,
                spec_scale_coordinate(p.2) as u8,
                255u8,
            ]
        },
    }
}

/// Number of bytes from the start of a pixel that reading a coefficient uses.
pub open spec fn pixel_read_len(style: PixelStyle) -> int {
    match style {
        PixelStyle::Word => 2,
        PixelStyle::Serpentine => 3,
    }
}

/// The coefficient of the pixel at `off`.
pub open spec fn spec_read_coef(style: PixelStyle, rgba: Seq<u8>, off: int) -> i16 {
    match style {
        PixelStyle::Word => {
            let u = rgba[off] as int * 256 + rgba[off + 1] as int;
            spec_zigzag_decode(u as u32) as i16
        },
        PixelStyle::Serpentine => {
            let n = spec_serpentine_index(
                spec_unscale_coordinate(rgba[off] as int),
                spec_unscale_coordinate(rgba[off + 1] as int),
                spec_unscale_coordinate(rgba[off + 2] as int),
                SERPENTINE_SIDE as int,
            );
            spec_zigzag_decode(n as u32) as i16
        },
    }
}

pub(crate) proof fn lemma_zigzag_i16(coef: i16)
    ensures
        spec_zigzag_encode(coef as i32) <= 65535,
        spec_zigzag_decode(spec_zigzag_encode(coef as i32)) as i16 == coef,
{
}

/// The point that the walk visits at position `n` is that of [`spec_serpentine_point`].
proof fn lemma_serpentine_point_is(n: int, m: int, p: (int, int, int))
    requires
        0 <= m,
        in_cube(p.0, p.1, p.2, m),
        spec_serpentine_index(p.0, p.1, p.2, m) == n,
    ensures
        spec_serpentine_point(n, m) == p,
{
    let q = spec_serpentine_point(n, m);
    assert(in_cube(q.0, q.1, q.2, m) && spec_serpentine_index(q.0, q.1, q.2, m) == n);
    crate::serpentine::lemma_serpentine_index_injective(q.0, q.1, q.2, p.0, p.1, p.2, m);
}

/// Reading the coefficient of a pixel gives back the coefficient.
pub proof fn lemma_pixel_roundtrip(style: PixelStyle, coef: i16, rgba: Seq<u8>, off: int)
    requires
        0 <= off,
        off + 4 <= rgba.len(),
        rgba.subrange(off, off + 4) == spec_pixel(style, coef),
    ensures
        spec_read_coef(style, rgba, off) == coef,
{
    lemma_zigzag_i16(coef);
    let z = spec_zigzag_encode(coef as i32);
    assert(rgba[off] == spec_pixel(style, coef)[0]);
    assert(rgba[off + 1] == spec_pixel(style, coef)[1]);
    assert(rgba[off + 2] == spec_pixel(style, coef)[2]);
    match style {
        PixelStyle::Word => {},
        PixelStyle::Serpentine => {
            let m = SERPENTINE_SIDE as int;
            assert(z < 41 * 41 * 41);
            lemma_serpentine_point_exists(z as int);
            let p = spec_serpentine_point(z as int, m);
            crate::serpentine::lemma_unscale_of_scale(p.0);
            crate::serpentine::lemma_unscale_of_scale(p.1);
            crate::serpentine::lemma_unscale_of_scale(p.2);
        },
    }
}

/// Every position of the walk of `[0, 40]^3` below `41^3` holds a point.
proof fn lemma_serpentine_point_exists(n: int)
    requires
        0 <= n < 41 * 41 * 41,
    ensures
        in_cube(
            spec_serpentine_point(n, 40).0,
            spec_serpentine_point(n, 40).1,
            spec_serpentine_point(n, 40).2,
            40,
        ),
        spec_serpentine_index(
            spec_serpentine_point(n, 40).0,
            spec_serpentine_point(n, 40).1,
            spec_serpentine_point(n, 40).2,
            40,
        ) == n,
{
    crate::serpentine::lemma_serpentine_surjective(n, 40);
}

/// The wavelet transform of a coefficient grid.
#[derive(Clone, Copy, PartialEq, Eq, Debug)]
pub enum GridTransform {
    /// Row-major samples; one wavelet packet decomposition of the whole grid
    /// with the interpolating filter of the given order.
    Packet(u32),
    /// Column-major samples; one dyadic decomposition of each column with the
    /// interpolating filter of the given order.
    Dyadic(u32),
    /// Column-major samples; one dyadic CDF 5/3 lifting decomposition of each column.
    Lifting53,
}

/// Whether `x` is a power of two.
pub open spec fn is_power_of_two(x: nat) -> bool
    decreases x,
{
    if x == 0 {
        false
    } else if x == 1 {
        true
    } else {
        x % 2 == 0 && is_power_of_two(x / 2)
    }
}

/// `floor(log2(x))`, and 0 for `x < 2`.
pub open spec fn floor_log2(x: nat) -> nat
    decreases x,
{
    if x < 2 {
        0
    } else {
        1 + floor_log2(x / 2)
    }
}

/// The grid height used for a requested height: the request itself when it
/// is a power of two of at least 4, else 1024.
pub open spec fn spec_effective_height(h_custom: nat) -> nat {
    if is_power_of_two(h_custom) && h_custom >= 4 {
        h_custom
    } else {
        1024
    }
}

/// Width of a grid of height `h` holding the stereo pairs of `data_len`
/// bytes: enough columns, rounded up to an even number, at least 2.
pub open spec fn spec_grid_width(data_len: nat, h: nat) -> nat {
    let num_pairs = (data_len + 3) / 4;
    let w0 = (num_pairs + h - 1) / (h as int);
    let w1 = if w0 % 2 != 0 { w0 + 1 } else { w0 };
    if w1 < 2 { 2 } else { w1 as nat }
}

/// Mid (`side == false`) or side value of stereo pair `i` of `data`.
pub open spec fn spec_channel(data: Seq<u8>, i: int, side: bool) -> i16 {
    if side { spec_ms_pair(data, i).1 } else { spec_ms_pair(data, i).0 }
}

/// Which stereo pair fills cell `k` of a `w` by `h` grid, row-major for the
/// packet transform and column-major for the column transforms.
pub open spec fn sample_index(t: GridTransform, k: int, w: int, h: int) -> int {
    match t {
        GridTransform::Packet(_) => k,
        _ => (k % w) * h + k / w,
    }
}

/// The row-major grid of one channel of `data`, before the transform.
pub open spec fn sample_grid(data: Seq<u8>, t: GridTransform, w: int, h: int, side: bool) -> Seq<i16> {
    Seq::new((w * h) as nat, |k: int| spec_channel(data, sample_index(t, k, w, h), side))
}

/// Column `c` of a row-major grid of width `w` and height `h`.
pub open spec fn column(g: Seq<i16>, w: int, h: int, c: int) -> Seq<i16> {
    Seq::new(h as nat, |r: int| g[r * w + c])
}

/// The forward (`forward == true`) or inverse one-dimensional transform of `t`.
pub open spec fn transform_seq(t: GridTransform, s: Seq<i16>, depth: nat, forward: bool) -> Seq<i16> {
    match t {
        GridTransform::Packet(wt) => if forward {
            spec_forward_packet(LiftingFilter::Interpolating(wt), s, depth)
        } else {
            spec_inverse_packet(LiftingFilter::Interpolating(wt), s, depth)
        },
        GridTransform::Dyadic(wt) => if forward {
            spec_forward_dyadic(LiftingFilter::Interpolating(wt), s, depth)
        } else {
            spec_inverse_dyadic(LiftingFilter::Interpolating(wt), s, depth)
        },
        GridTransform::Lifting53 => if forward {
            spec_forward_dyadic(LiftingFilter::Cdf53, s, depth)
        } else {
            spec_inverse_dyadic(LiftingFilter::Cdf53, s, depth)
        },
    }
}

/// The transform of a row-major grid: of the whole grid for the packet
/// transform, of each column for the others.
pub open spec fn transform_grid(t: GridTransform, g: Seq<i16>, w: int, h: int, depth: nat, forward: bool) -> Seq<i16> {
    match t {
        GridTransform::Packet(_) => transform_seq(t, g, depth, forward),
        _ => Seq::new((w * h) as nat, |k: int| transform_seq(t, column(g, w, h, k % w), depth, forward)[k / w]),
    }
}

/// Byte `j` of the pixel body: the pixels of the mid and side coefficient of
/// each cell, in row-major order.
pub open spec fn body_byte(style: PixelStyle, mid: Seq<i16>, side: Seq<i16>, j: int) -> u8 {
    let k = j / 8;
    let t = j % 8;
    if t < 4 { spec_pixel(style, mid[k])[t] } else { spec_pixel(style, side[k])[t - 4] }
}

/// The pixel body of two coefficient grids.
pub open spec fn spec_body(style: PixelStyle, mid: Seq<i16>, side: Seq<i16>) -> Seq<u8> {
    Seq::new(8 * mid.len(), |j: int| body_byte(style, mid, side, j))
}

/// The 16-byte header: data length, image width in pixels, grid height,
/// a parameter byte, the packing version and the sample rate 44100.
pub open spec fn spec_header(len: u32, w_png: u32, h: u32, param: u8, version: u8) -> Seq<u8> {
    spec_be32(len) + spec_be32(w_png) + spec_be32(h) + seq![param, version] + spec_be16(44100)
}

/// The image of `data` for a grid packing with transform `t` and pixel style `style`.
pub open spec fn spec_encode_grid(
    data: Seq<u8>,
    h_custom: nat,
    t: GridTransform,
    style: PixelStyle,
    param: u8,
    version: u8,
) -> Seq<u8> {
    let h = spec_effective_height(h_custom);
    let w = spec_grid_width(data.len(), h);
    let depth = floor_log2(h);
    let mid = transform_grid(t, sample_grid(data, t, w as int, h as int, false), w as int, h as int, depth, true);
    let side = transform_grid(t, sample_grid(data, t, w as int, h as int, true), w as int, h as int, depth, true);
    spec_header(data.len() as u32, (2 * w) as u32, h as u32, param, version) + spec_body(style, mid, side)
}

/// Whether the grid packing of `data` fits the grid limit.
pub open spec fn grid_fits(data_len: nat, h_custom: nat) -> bool {
    let h = spec_effective_height(h_custom);
    spec_grid_width(data_len, h) * h <= MAX_GRID_CELLS
}

/// Offset of the mid (`ch == 0`) or side (`ch == 1`) pixel of cell `k` in
/// an image `w_png` pixels wide whose grids are `w` cells wide.
pub open spec fn pixel_offset(w_png: int, w: int, k: int, ch: int) -> int {
    16 + 4 * ((k / w) * w_png + 2 * (k % w)) + 4 * ch
}

/// The coefficient grid of one channel as the header of `rgba` lays it out.
pub open spec fn read_grid(rgba: Seq<u8>, style: PixelStyle, side: bool) -> Seq<i16> {
    let w_png = spec_read_be32(rgba, 4) as int;
    let h = spec_read_be32(rgba, 8) as int;
    let w = w_png / 2;
    Seq::new(
        (w * h) as nat,
        |k: int| spec_read_coef(style, rgba, pixel_offset(w_png, w, k, if side { 1 } else { 0 })),
    )
}

/// Which cell holds stereo pair `i`: row-major for the packet transform,
/// column-major for the others.
pub open spec fn pcm_cell(t: GridTransform, i: int, w: int, h: int) -> int {
    match t {
        GridTransform::Packet(_) => i,
        _ => (i % h) * w + i / h,
    }
}

/// Number of PCM bytes decoded: the announced length for the packet
/// transform; for the others, the announced length but at most the grid.
pub open spec fn pcm_len(t: GridTransform, w: int, h: int, len: int) -> int {
    match t {
        GridTransform::Packet(_) => len,
        _ => if len < 4 * (w * h) { len } else { 4 * (w * h) },
    }
}

/// The PCM bytes of decoded mid and side grids.
pub open spec fn spec_pcm_bytes(t: GridTransform, mid: Seq<i16>, side: Seq<i16>, w: int, h: int, len: int) -> Seq<u8> {
    Seq::new(
        pcm_len(t, w, h, len) as nat,
        |j: int| {
            let k = pcm_cell(t, j / 4, w, h);
            ms_pcm_byte(mid[k], side[k], j % 4)
        },
    )
}

/// The bytes that a grid packing of `rgba` decodes to.
pub open spec fn spec_decode_grid(rgba: Seq<u8>, t: GridTransform, style: PixelStyle) -> Seq<u8> {
    let len = spec_read_be32(rgba, 0) as int;
    let h = spec_read_be32(rgba, 8) as int;
    let w = spec_read_be32(rgba, 4) as int / 2;
    let depth = floor_log2(h as nat);
    let mid = transform_grid(t, read_grid(rgba, style, false), w, h, depth, false);
    let side = transform_grid(t, read_grid(rgba, style, true), w, h, depth, false);
    spec_pcm_bytes(t, mid, side, w, h, len)
}

/// Whether decoding a grid packing of `rgba` stays within the image, the
/// grid limit and, for the packet transform, the grid: the inputs on which
/// the decoder neither reads past the image nor past a grid.
pub open spec fn grid_decodable(rgba: Seq<u8>, t: GridTransform, style: PixelStyle) -> bool {
    rgba.len() >= 16 ==> {
        let len = spec_read_be32(rgba, 0) as int;
        let w_png = spec_read_be32(rgba, 4) as int;
        let h = spec_read_be32(rgba, 8) as int;
        let w = w_png / 2;
        &&& w * h <= MAX_GRID_CELLS
        &&& w * h > 0 ==> pixel_offset(w_png, w, w * h - 1, 1) + pixel_read_len(style) <= rgba.len()
        &&& t is Packet ==> (len + 3) / 4 <= w * h
    }
}

/// `floor(log2(x))` is at most `x`.
proof fn lemma_floor_log2_le(x: nat)
    ensures
        floor_log2(x) <= x,
    decreases x,
{
    if x >= 2 {
        lemma_floor_log2_le(x / 2);
    }
}

/// Whether `x` is a power of two.
pub fn power_of_two(x: usize) -> (res: bool)
    ensures
        res == is_power_of_two(x as nat),
{
    if x == 0 {
        return false;
    }
    let mut y = x;
    while y > 1 && y % 2 == 0
        invariant
            1 <= y <= x,
            is_power_of_two(y as nat) == is_power_of_two(x as nat),
        decreases y,
    {
        y = y / 2;
    }
    y == 1
}

/// `floor(log2(x))`, and 0 for `x < 2`: the number of levels of a grid of height `x`.
pub fn floor_log2_of(x: usize) -> (res: usize)
    ensures
        res == floor_log2(x as nat),
{
    let mut d: usize = 0;
    let mut y = x;
    proof {
        lemma_floor_log2_le(x as nat);
    }
    while y >= 2
        invariant
            d + floor_log2(y as nat) == floor_log2(x as nat),
            floor_log2(x as nat) <= x,
        decreases y,
    {
        d = d + 1;
        y = y / 2;
    }
    d
}

/// The grid height used for a requested height: the request itself when it
/// is a power of two of at least 4, else 1024.
pub fn effective_height(h_custom: usize) -> (res: usize)
    ensures
        res == spec_effective_height(h_custom as nat),
{
    if power_of_two(h_custom) && h_custom >= 4 {
        h_custom
    } else {
        1024
    }
}

/// Width of a grid of height `h` for `data_len` bytes of stereo PCM.
pub fn calculate_grid_width(data_len: usize, h: usize) -> (res: usize)
    requires
        h >= 1,
        data_len + 3 <= usize::MAX,
        (data_len + 3) / 4 + h <= usize::MAX,
    ensures
        res == spec_grid_width(data_len as nat, h as nat),
{
    let num_pairs = (data_len + 3) / 4;
    let mut w = (num_pairs + h - 1) / h;
    if w % 2 != 0 {
        w += 1;
    }
    if w < 2 {
        w = 2;
    }
    w
}

/// The grid holds every stereo pair of the data, and its width is even and at least 2.
pub proof fn lemma_grid_width(data_len: nat, h: nat)
    requires
        h >= 1,
    ensures
        spec_grid_width(data_len, h) >= 2,
        spec_grid_width(data_len, h) % 2 == 0,
        spec_grid_width(data_len, h) * h >= (data_len + 3) / 4,
        4 * (spec_grid_width(data_len, h) * h) >= data_len,
{
    let num_pairs = (data_len + 3) / 4;
    let w0 = (num_pairs + h - 1) / (h as int);
    let w = spec_grid_width(data_len, h);
    assert(w0 * h >= num_pairs) by (nonlinear_arith)
        requires
            w0 == (num_pairs + h - 1) / (h as int),
            h >= 1,
            num_pairs >= 0,
    ;
    assert(w >= w0);
    assert(w * h >= w0 * h) by (nonlinear_arith)
        requires
            w >= w0,
            h >= 1,
    ;
}

/// A smaller power of two is at most half of a larger one.
proof fn lemma_power_of_two_half(x: nat, n: nat)
    requires
        is_power_of_two(x),
        is_power_of_two(n),
        x < n,
    ensures
        2 * x <= n,
    decreases n,
{
    if x > 1 {
        lemma_power_of_two_half(x / 2, n / 2);
    }
}

/// `2^k` is a power of two.
proof fn lemma_pow2_is_power_of_two(k: nat)
    ensures
        is_power_of_two(vstd::arithmetic::power2::pow2(k)),
    decreases k,
{
    if k == 0 {
        vstd::arithmetic::power2::lemma2_to64();
    } else {
        lemma_pow2_is_power_of_two((k - 1) as nat);
        vstd::arithmetic::power2::lemma_pow2_unfold(k);
        vstd::arithmetic::power2::lemma_pow2_pos((k - 1) as nat);
        let y = vstd::arithmetic::power2::pow2((k - 1) as nat);
        assert((2 * y) / 2 == y && (2 * y) % 2 == 0);
    }
}

/// A power of two that fits a `usize` is at most half of `usize::MAX + 1`.
proof fn lemma_power_of_two_usize(x: nat)
    requires
        is_power_of_two(x),
        x <= usize::MAX,
    ensures
        2 * x <= usize::MAX + 1,
{
    vstd::arithmetic::power2::lemma2_to64();
    assert(usize::MAX == 0xffff_ffff || usize::MAX == 0xffff_ffff_ffff_ffff);
    if usize::MAX == 0xffff_ffff {
        lemma_pow2_is_power_of_two(32);
        lemma_power_of_two_half(x, 0x1_0000_0000);
    } else {
        lemma_pow2_is_power_of_two(64);
        lemma_power_of_two_half(x, 0x1_0000_0000_0000_0000);
    }
}

/// Whether `data` opens with a 44-byte WAV header: at least 44 bytes, the
/// first four of them `RIFF`.
pub open spec fn has_wav_header(data: Seq<u8>) -> bool {
    &&& data.len() >= 44
    &&& data[0] == 0x52u8
    &&& data[1] == 0x49u8
    &&& data[2] == 0x46u8
    &&& data[3] == 0x46u8
}

/// Where the PCM samples of `data` start: past the WAV header, if any.
pub open spec fn spec_pcm_start(data: Seq<u8>) -> nat {
    if has_wav_header(data) { 44 } else { 0 }
}

/// Where the PCM samples of `data` start: 44 past a WAV header, else 0.
pub fn pcm_start(data: &[u8]) -> (res: usize)
    ensures
        res == spec_pcm_start(data@),
{
    if data.len() >= 44 && data[0] == 0x52u8 && data[1] == 0x49u8 && data[2] == 0x46u8 && data[3] == 0x46u8 {
        44
    } else {
        0
    }
}

/// Width of the complex spectrogram of `data`: the grid width, at the
/// effective height, of half the PCM bytes past any WAV header.
pub fn wasm_get_complex_spectrogram_width(data: &[u8], h_custom: usize) -> (res: usize)
    ensures
        res == spec_grid_width(
            ((data@.len() - spec_pcm_start(data@)) / 2) as nat,
            spec_effective_height(h_custom as nat),
        ),
{
    let h = effective_height(h_custom);
    let start = pcm_start(data);
    let half = (data.len() - start) / 2;
    proof {
        if is_power_of_two(h_custom as nat) && h_custom >= 4 {
            lemma_power_of_two_usize(h as nat);
        }
    }
    calculate_grid_width(half, h)
}

/// Appends the pixel of a coefficient.
pub fn push_pixel(out: &mut Vec<u8>, style: PixelStyle, coef: i16)
    ensures
        final(out)@ == old(out)@ + spec_pixel(style, coef),
{
    proof {
        lemma_zigzag_i16(coef);
    }
    let z = zigzag_encode(coef as i32);
    match style {
        PixelStyle::Word => {
            let u = z as u16;
            out.push((u >> 8u16) as u8);
            out.push((u & 0xFFu16) as u8);
            out.push(0u8);
            out.push(255u8);
            assert((u >> 8u16) == u / 256) by (bit_vector);
            assert((u & 0xFFu16) == u % 256) by (bit_vector);
        },
        PixelStyle::Serpentine => {
            assert(z < 41 * 41 * 41);
            let p = decode_n(z, SERPENTINE_SIDE);
            proof {
                lemma_serpentine_point_is(z as int, 40, (p.r as int, p.g as int, p.b as int));
            }
            out.push(scale_coordinate(p.r));
            out.push(scale_coordinate(p.g));
            out.push(scale_coordinate(p.b));
            out.push(255u8);
        },
    }
    assert(final(out)@ =~= old(out)@ + spec_pixel(style, coef));
}

/// The coefficient of the pixel at `off`.
pub fn read_coef(style: PixelStyle, rgba: &[u8], off: usize) -> (res: i16)
    requires
        off + pixel_read_len(style) <= rgba@.len(),
    ensures
        res == spec_read_coef(style, rgba@, off as int),
{
    match style {
        PixelStyle::Word => {
            let hi = rgba[off] as u16;
            let lo = rgba[off + 1] as u16;
            let u = (hi << 8u16) | lo;
            assert(u == hi * 256 + lo) by (bit_vector)
                requires
                    hi < 256,
                    lo < 256,
                    u == (hi << 8u16) | lo,
            ;
            zigzag_decode(u as u32) as i16
        },
        PixelStyle::Serpentine => {
            let p = Rgb {
                r: unscale_coordinate(rgba[off]),
                g: unscale_coordinate(rgba[off + 1]),
                b: unscale_coordinate(rgba[off + 2]),
            };
            proof {
                crate::serpentine::lemma_serpentine_index_bound(p.r as int, p.g as int, p.b as int, 40);
            }
            let n = encode_n(p, SERPENTINE_SIDE);
            zigzag_decode(n) as i16
        },
    }
}

/// Cell `(r, c)` of a row-major grid `w` wide and `h` high lies at `r * w + c`.
pub(crate) proof fn lemma_cell(r: int, c: int, w: int, h: int)
    requires
        0 <= r < h,
        0 <= c < w,
    ensures
        0 <= r * w + c < w * h,
        (r * w + c) / w == r,
        (r * w + c) % w == c,
{
    vstd::arithmetic::div_mod::lemma_fundamental_div_mod_converse(r * w + c, w, r, c);
    assert(0 <= r * w + c < w * h) by (nonlinear_arith)
        requires
            0 <= r < h,
            0 <= c < w,
    ;
}

/// Every index of a row-major grid `w` wide and `h` high is a cell of it.
pub(crate) proof fn lemma_cell_of(k: int, w: int, h: int)
    requires
        0 <= k < w * h,
        w > 0,
    ensures
        0 <= k / w < h,
        0 <= k % w < w,
        k == (k / w) * w + k % w,
{
    vstd::arithmetic::div_mod::lemma_fundamental_div_mod(k, w);
    vstd::arithmetic::mul::lemma_mul_is_commutative(k / w, w);
    assert(k / w < h) by (nonlinear_arith)
        requires
            0 <= k < w * h,
            w > 0,
            k == w * (k / w) + k % w,
            0 <= k % w < w,
    ;
    assert(k / w >= 0) by (nonlinear_arith)
        requires
            0 <= k,
            w > 0,
            k == w * (k / w) + k % w,
            k % w < w,
    ;
}

/// The stereo pair that fills cell `k`.
fn sample_index_of(t: GridTransform, k: usize, w: usize, h: usize) -> (res: usize)
    requires
        k < w * h,
        w * h <= MAX_GRID_CELLS,
    ensures
        res == sample_index(t, k as int, w as int, h as int),
        res < w * h,
{
    match t {
        GridTransform::Packet(_) => k,
        _ => {
            assert(w > 0) by (nonlinear_arith)
                requires
                    k < w * h,
            ;
            let r = k / w;
            let c = k % w;
            proof {
                lemma_cell_of(k as int, w as int, h as int);
                lemma_cell(c as int, r as int, h as int, w as int);
                assert(h * w == w * h) by (nonlinear_arith);
            }
            c * h + r
        },
    }
}

/// The mid and side grids of `data`, before the transform.
pub(crate) fn sample_grids(data: &[u8], t: GridTransform, w: usize, h: usize) -> (res: (Vec<i16>, Vec<i16>))
    requires
        w * h <= MAX_GRID_CELLS,
    ensures
        res.0@ == sample_grid(data@, t, w as int, h as int, false),
        res.1@ == sample_grid(data@, t, w as int, h as int, true),
{
    let g = w * h;
    let mut mid: Vec<i16> = Vec::new();
    let mut side: Vec<i16> = Vec::new();
    let mut k: usize = 0;
    while k < g
        invariant
            k <= g,
            g == w * h,
            g <= MAX_GRID_CELLS,
            mid@.len() == k,
            side@.len() == k,
            forall|j: int| 0 <= j < k ==> #[trigger] mid@[j] == spec_channel(data@, sample_index(t, j, w as int, h as int), false),
            forall|j: int| 0 <= j < k ==> #[trigger] side@[j] == spec_channel(data@, sample_index(t, j, w as int, h as int), true),
        decreases g - k,
    {
        let i = sample_index_of(t, k, w, h);
        let (m, s) = ms_pair(data, i);
        mid.push(m);
        side.push(s);
        k += 1;
    }
    assert(mid@ =~= sample_grid(data@, t, w as int, h as int, false));
    assert(side@ =~= sample_grid(data@, t, w as int, h as int, true));
    (mid, side)
}

/// Applies the one-dimensional transform of `t` to `a`.
fn apply_transform(t: GridTransform, a: &mut Vec<i16>, depth: usize, forward: bool)
    requires
        old(a)@.len() <= MAX_LIFTING_LEN,
    ensures
        final(a)@ == transform_seq(t, old(a)@, depth as nat, forward),
        final(a)@.len() == old(a)@.len(),
{
    match t {
        GridTransform::Packet(wt) => {
            proof {
                lemma_packet_lengths(LiftingFilter::Interpolating(wt), a@, depth as nat);
            }
            if forward {
                forward_wpd(a.as_mut_slice(), depth, wt);
            } else {
                inverse_wpd(a.as_mut_slice(), depth, wt);
            }
        },
        GridTransform::Dyadic(wt) => {
            proof {
                lemma_dyadic_lengths(LiftingFilter::Interpolating(wt), a@, depth as nat);
            }
            if forward {
                forward_dwt(a.as_mut_slice(), depth, wt);
            } else {
                inverse_dwt(a.as_mut_slice(), depth, wt);
            }
        },
        GridTransform::Lifting53 => {
            proof {
                lemma_dyadic_lengths(LiftingFilter::Cdf53, a@, depth as nat);
            }
            if forward {
                forward_lifting_53(a.as_mut_slice(), depth);
            } else {
                inverse_lifting_53(a.as_mut_slice(), depth);
            }
        },
    }
}

/// Applies the one-dimensional transform of `t` to each column of a
/// row-major grid `w` wide and `h` high.
fn transform_columns(t: GridTransform, g: &mut Vec<i16>, w: usize, h: usize, depth: usize, forward: bool)
    requires
        !(t is Packet),
        old(g)@.len() == w * h,
        w * h <= MAX_GRID_CELLS,
    ensures
        final(g)@ == transform_grid(t, old(g)@, w as int, h as int, depth as nat, forward),
{
    let ghost g0 = g@;
    let ghost wi = w as int;
    let ghost hi = h as int;
    let mut c: usize = 0;
    while c < w
        invariant
            c <= w,
            g@.len() == w * h,
            w * h <= MAX_GRID_CELLS,
            wi == w,
            hi == h,
            forall|k: int|
                0 <= k < wi * hi ==> #[trigger] g@[k] == if k % wi < c {
                    transform_seq(t, column(g0, wi, hi, k % wi), depth as nat, forward)[k / wi]
                } else {
                    g0[k]
                },
        decreases w - c,
    {
        let mut col: Vec<i16> = Vec::new();
        let mut r: usize = 0;
        while r < h
            invariant
                r <= h,
                c < w,
                g@.len() == w * h,
                w * h <= MAX_GRID_CELLS,
                wi == w,
                hi == h,
                col@.len() == r,
                forall|j: int| 0 <= j < r ==> #[trigger] col@[j] == column(g0, wi, hi, c as int)[j],
                forall|k: int|
                    0 <= k < wi * hi ==> #[trigger] g@[k] == if k % wi < c {
                        transform_seq(t, column(g0, wi, hi, k % wi), depth as nat, forward)[k / wi]
                    } else {
                        g0[k]
                    },
            decreases h - r,
        {
            proof {
                lemma_cell(r as int, c as int, wi, hi);
            }
            col.push(g[r * w + c]);
            r += 1;
        }
        proof {
            assert(col@ =~= column(g0, wi, hi, c as int));
            assert(hi <= wi * hi) by (nonlinear_arith)
                requires
                    0 <= c < wi,
                    hi >= 0,
            ;
        }
        apply_transform(t, &mut col, depth, forward);
        let mut r: usize = 0;
        while r < h
            invariant
                r <= h,
                c < w,
                g@.len() == w * h,
                w * h <= MAX_GRID_CELLS,
                wi == w,
                hi == h,
                col@ == transform_seq(t, column(g0, wi, hi, c as int), depth as nat, forward),
                col@.len() == h,
                forall|k: int|
                    0 <= k < wi * hi ==> #[trigger] g@[k] == if k % wi < c || (k % wi == c && k / wi < r) {
                        transform_seq(t, column(g0, wi, hi, k % wi), depth as nat, forward)[k / wi]
                    } else {
                        g0[k]
                    },
            decreases h - r,
        {
            proof {
                lemma_cell(r as int, c as int, wi, hi);
            }
            let v = col[r];
            g.set(r * w + c, v);
            proof {
                assert forall|k: int| 0 <= k < wi * hi implies #[trigger] g@[k] == if k % wi < c || (k % wi == c && k / wi < r + 1) {
                    transform_seq(t, column(g0, wi, hi, k % wi), depth as nat, forward)[k / wi]
                } else {
                    g0[k]
                } by {
                    lemma_cell_of(k, wi, hi);
                    if k == r * wi + c {
                    } else {
                        if k % wi == c && k / wi == r {
                            assert(k == r * wi + c);
                        }
                    }
                }
            }
            r += 1;
        }
        proof {
            assert forall|k: int| 0 <= k < wi * hi implies #[trigger] g@[k] == if k % wi < c + 1 {
                transform_seq(t, column(g0, wi, hi, k % wi), depth as nat, forward)[k / wi]
            } else {
                g0[k]
            } by {
                lemma_cell_of(k, wi, hi);
            }
        }
        c += 1;
    }
    proof {
        assert forall|k: int| 0 <= k < wi * hi implies #[trigger] g@[k] == transform_seq(
            t,
            column(g0, wi, hi, k % wi),
            depth as nat,
            forward,
        )[k / wi] by {
            lemma_cell_of(k, wi, hi);
        }
        assert(g@ =~= transform_grid(t, g0, wi, hi, depth as nat, forward));
    }
}

/// Applies the transform of `t` to a row-major grid `w` wide and `h` high.
pub(crate) fn transform_grid_in_place(t: GridTransform, g: &mut Vec<i16>, w: usize, h: usize, depth: usize, forward: bool)
    requires
        old(g)@.len() == w * h,
        w * h <= MAX_GRID_CELLS,
    ensures
        final(g)@ == transform_grid(t, old(g)@, w as int, h as int, depth as nat, forward),
        final(g)@.len() == w * h,
{
    match t {
        GridTransform::Packet(_) => {
            apply_transform(t, g, depth, forward);
        },
        _ => {
            transform_columns(t, g, w, h, depth, forward);
        },
    }
}

/// The image of `data` for a grid packing: header, then the mid and side
/// pixels of each transformed cell.
fn encode_grid(
    data: &[u8],
    h_custom: usize,
    t: GridTransform,
    style: PixelStyle,
    param: u8,
    version: u8,
) -> (res: Vec<u8>)
    requires
        grid_fits(data@.len(), h_custom as nat),
    ensures
        res@ == spec_encode_grid(data@, h_custom as nat, t, style, param, version),
{
    let h = effective_height(h_custom);
    proof {
        lemma_grid_width(data@.len(), h as nat);
        let w = spec_grid_width(data@.len(), h as nat);
        assert(h <= w * h) by (nonlinear_arith)
            requires
                w >= 2,
        ;
    }
    let w = calculate_grid_width(data.len(), h);
    let g = w * h;
    let (mut mid, mut side) = sample_grids(data, t, w, h);
    let depth = floor_log2_of(h);
    transform_grid_in_place(t, &mut mid, w, h, depth, true);
    transform_grid_in_place(t, &mut side, w, h, depth, true);
    let mut out: Vec<u8> = Vec::new();
    push_be32(&mut out, data.len() as u32);
    push_be32(&mut out, (2 * w) as u32);
    push_be32(&mut out, h as u32);
    out.push(param);
    out.push(version);
    push_be16(&mut out, 44100u16);
    let ghost header = spec_header(data@.len() as u32, (2 * w) as u32, h as u32, param, version);
    assert(out@ =~= header);
    let mut k: usize = 0;
    while k < g
        invariant
            k <= g,
            g == mid@.len(),
            g == side@.len(),
            out@ =~= header + Seq::new(8 * k as nat, |j: int| body_byte(style, mid@, side@, j)),
        decreases g - k,
    {
        push_pixel(&mut out, style, mid[k]);
        push_pixel(&mut out, style, side[k]);
        k += 1;
        assert(out@ =~= header + Seq::new(8 * k as nat, |j: int| body_byte(style, mid@, side@, j)));
    }
    assert(out@ =~= header + spec_body(style, mid@, side@));
    out
}

/// Reads the coefficient grid of one channel (`ch` 0 for mid, 1 for side).
fn read_channel(rgba: &[u8], style: PixelStyle, w_png: usize, w: usize, h: usize, ch: usize) -> (res: Vec<i16>)
    requires
        ch <= 1,
        w == w_png / 2,
        w * h <= MAX_GRID_CELLS,
        w * h > 0 ==> pixel_offset(w_png as int, w as int, w * h - 1, 1) + pixel_read_len(style) <= rgba@.len(),
    ensures
        res@ == Seq::new(
            (w * h) as nat,
            |k: int| spec_read_coef(style, rgba@, pixel_offset(w_png as int, w as int, k, ch as int)),
        ),
{
    let g = w * h;
    let total = rgba.len();
    let mut out: Vec<i16> = Vec::new();
    let mut k: usize = 0;
    while k < g
        invariant
            total == rgba@.len(),
            ch <= 1,
            k <= g,
            g == w * h,
            w == w_png / 2,
            g <= MAX_GRID_CELLS,
            g > 0 ==> pixel_offset(w_png as int, w as int, g - 1, 1) + pixel_read_len(style) <= rgba@.len(),
            out@.len() == k,
            forall|j: int|
                0 <= j < k ==> #[trigger] out@[j] == spec_read_coef(
                    style,
                    rgba@,
                    pixel_offset(w_png as int, w as int, j, ch as int),
                ),
        decreases g - k,
    {
        assert(w > 0) by (nonlinear_arith)
            requires
                k < w * h,
        ;
        let r = k / w;
        let c = k % w;
        proof {
            let wi = w as int;
            let hi = h as int;
            let wp = w_png as int;
            lemma_cell_of(k as int, wi, hi);
            assert(hi > 0) by (nonlinear_arith)
                requires
                    k < wi * hi,
                    wi > 0,
            ;
            assert(g - 1 == (hi - 1) * wi + (wi - 1)) by (nonlinear_arith)
                requires
                    g == wi * hi,
            ;
            lemma_cell(hi - 1, wi - 1, wi, hi);
            assert(r * wp + 2 * c <= (hi - 1) * wp + 2 * (wi - 1)) by (nonlinear_arith)
                requires
                    0 <= r <= hi - 1,
                    0 <= c <= wi - 1,
                    wp >= 0,
            ;
            assert((g - 1) / wi == hi - 1);
            assert((g - 1) % wi == wi - 1);
            assert(pixel_offset(wp, wi, g - 1, 1) == 16 + 4 * ((hi - 1) * wp + 2 * (wi - 1)) + 4);
            assert(0 <= r * wp) by (nonlinear_arith)
                requires
                    0 <= r,
                    wp >= 0,
            ;
        }
        let off = 16 + (r * w_png + 2 * c) * 4 + 4 * ch;
        out.push(read_coef(style, rgba, off));
        k += 1;
    }
    assert(out@ =~= Seq::new(
        (w * h) as nat,
        |k: int| spec_read_coef(style, rgba@, pixel_offset(w_png as int, w as int, k, ch as int)),
    ));
    out
}

/// Appends the PCM bytes of the mid/side pair `(m, s)`, stopping at `limit` bytes.
fn push_pcm_pair(out: &mut Vec<u8>, m: i16, s: i16, limit: usize)
    requires
        old(out)@.len() < limit,
    ensures
        final(out)@ == old(out)@ + Seq::new(
            (if limit - old(out)@.len() < 4 { limit - old(out)@.len() } else { 4 }) as nat,
            |t: int| ms_pcm_byte(m, s, t),
        ),
{
    let ghost start = out@;
    let (l, r) = ms_to_lr(m, s);
    out.push(low_byte_of(l));
    if out.len() < limit {
        out.push(high_byte_of(l));
    }
    if out.len() < limit {
        out.push(low_byte_of(r));
    }
    if out.len() < limit {
        out.push(high_byte_of(r));
    }
    assert(out@ =~= start + Seq::new(
        (if limit - start.len() < 4 { limit - start.len() } else { 4 }) as nat,
        |t: int| ms_pcm_byte(m, s, t),
    ));
}

/// The PCM bytes of decoded mid and side grids.
pub(crate) fn pcm_bytes(t: GridTransform, mid: &Vec<i16>, side: &Vec<i16>, w: usize, h: usize, len: usize) -> (res: Vec<u8>)
    requires
        mid@.len() == w * h,
        side@.len() == w * h,
        w * h <= MAX_GRID_CELLS,
        t is Packet ==> (len + 3) / 4 <= w * h,
    ensures
        res@ == spec_pcm_bytes(t, mid@, side@, w as int, h as int, len as int),
{
    let g = w * h;
    let n = match t {
        GridTransform::Packet(_) => len,
        _ => if len < 4 * g { len } else { 4 * g },
    };
    let ghost spec = spec_pcm_bytes(t, mid@, side@, w as int, h as int, len as int);
    let mut out: Vec<u8> = Vec::new();
    let mut i: usize = 0;
    while 4 * i < n
        invariant
            g == w * h,
            g <= MAX_GRID_CELLS,
            mid@.len() == g,
            side@.len() == g,
            n == pcm_len(t, w as int, h as int, len as int),
            n <= 4 * g,
            spec == spec_pcm_bytes(t, mid@, side@, w as int, h as int, len as int),
            i <= g,
            out@.len() == (if 4 * i < n { 4 * i } else { n as int }),
            out@ =~= spec.subrange(0, out@.len() as int),
        decreases g - i,
    {
        let k: usize = match t {
            GridTransform::Packet(_) => i,
            _ => {
                assert(h > 0 && w > 0) by (nonlinear_arith)
                    requires
                        i < w * h,
                ;
                proof {
                    assert(h * w == w * h) by (nonlinear_arith);
                    lemma_cell_of(i as int, h as int, w as int);
                    lemma_cell((i % h) as int, (i / h) as int, w as int, h as int);
                }
                (i % h) * w + i / h
            },
        };
        assert(k == pcm_cell(t, i as int, w as int, h as int));
        let ghost before = out@;
        push_pcm_pair(&mut out, mid[k], side[k], n);
        i += 1;
        assert(out@ =~= spec.subrange(0, out@.len() as int)) by {
            assert forall|j: int| before.len() <= j < out@.len() implies out@[j] == spec[j] by {
                assert(j / 4 == i - 1);
            }
        }
    }
    assert(out@ =~= spec);
    out
}

/// The bytes that a grid packing of `rgba` decodes to, once its header is known to be there.
fn decode_grid_body(rgba: &[u8], t: GridTransform, style: PixelStyle) -> (res: Vec<u8>)
    requires
        rgba@.len() >= 16,
        grid_decodable(rgba@, t, style),
    ensures
        res@ == spec_decode_grid(rgba@, t, style),
{
    let len = read_be32(rgba, 0) as usize;
    let w_png = read_be32(rgba, 4) as usize;
    let h = read_be32(rgba, 8) as usize;
    let w = w_png / 2;
    let mut mid = read_channel(rgba, style, w_png, w, h, 0);
    let mut side = read_channel(rgba, style, w_png, w, h, 1);
    assert(mid@ =~= read_grid(rgba@, style, false));
    assert(side@ =~= read_grid(rgba@, style, true));
    let depth = floor_log2_of(h);
    transform_grid_in_place(t, &mut mid, w, h, depth, false);
    transform_grid_in_place(t, &mut side, w, h, depth, false);
    pcm_bytes(t, &mid, &side, w, h, len)
}

/// Whether a grid packing of `rgba` can be decoded without reading past the
/// image or past a grid (see [`grid_decodable`]).
pub fn check_grid_decodable(rgba: &[u8], t: GridTransform, style: PixelStyle) -> (res: bool)
    ensures
        res == grid_decodable(rgba@, t, style),
{
    if rgba.len() < 16 {
        return true;
    }
    let len = read_be32(rgba, 0) as u64;
    let w_png = read_be32(rgba, 4) as u64;
    let h = read_be32(rgba, 8) as u64;
    let w = w_png / 2;
    assert(w * h <= 0x8000_0000u64 * 0x1_0000_0000u64) by (nonlinear_arith)
        requires
            w <= 0x8000_0000u64,
            h <= 0x1_0000_0000u64,
    ;
    let g = w * h;
    if g > MAX_GRID_CELLS as u64 {
        return false;
    }
    if g > 0 {
        let ghost wi = w as int;
        let ghost hi = h as int;
        let ghost wp = w_png as int;
        proof {
            assert(wi > 0 && hi > 0 && hi <= wi * hi) by (nonlinear_arith)
                requires
                    wi * hi > 0,
                    wi >= 0,
                    hi >= 0,
            ;
            assert(g - 1 == (hi - 1) * wi + (wi - 1)) by (nonlinear_arith)
                requires
                    g == wi * hi,
            ;
            lemma_cell(hi - 1, wi - 1, wi, hi);
            assert((hi - 1) * wp <= 0x1000_0000 * 0x1_0000_0000) by (nonlinear_arith)
                requires
                    0 <= hi - 1 <= 0x1000_0000,
                    0 <= wp <= 0x1_0000_0000,
            ;
        }
        let last = 16 + 4 * ((h - 1) * w_png + 2 * (w - 1)) + 4 + match style {
            PixelStyle::Word => 2u64,
            PixelStyle::Serpentine => 3u64,
        };
        if last > rgba.len() as u64 {
            return false;
        }
    }
    match t {
        GridTransform::Packet(_) => (len + 3) / 4 <= g,
        _ => true,
    }
}

/// The transform parameter stored in byte 12 of a grid packing.
pub open spec fn header_param(rgba: Seq<u8>) -> u32 {
    rgba[12] as u32
}

/// Two-pixel packing: wavelet packet transform of order `wavelet_type`,
/// coefficients as ZigZag words in the red and green of a mid and a side pixel.
pub fn encode_wavelet_v1_two_pixels(data: &[u8], h_custom: usize, wavelet_type: u32) -> (res: Vec<u8>)
    requires
        grid_fits(data@.len(), h_custom as nat),
    ensures
        res@ == spec_encode_grid(
            data@,
            h_custom as nat,
            GridTransform::Packet(wavelet_type),
            PixelStyle::Word,
            wavelet_type as u8,
            1,
        ),
{
    encode_grid(data, h_custom, GridTransform::Packet(wavelet_type), PixelStyle::Word, wavelet_type as u8, 1)
}

/// Decodes a two-pixel packing.
pub fn decode_wavelet_v1_two_pixels(rgba_data: &[u8]) -> (res: Result<Vec<u8>, CodecError>)
    requires
        grid_decodable(rgba_data@, GridTransform::Packet(header_param(rgba_data@)), PixelStyle::Word),
    ensures
        rgba_data@.len() < 16 ==> res == Err::<Vec<u8>, CodecError>(CodecError::InvalidData(1)),
        rgba_data@.len() >= 16 ==> res is Ok && res.unwrap()@ == spec_decode_grid(
            rgba_data@,
            GridTransform::Packet(header_param(rgba_data@)),
            PixelStyle::Word,
        ),
{
    if rgba_data.len() < 16 {
        return Err(CodecError::InvalidData(1));
    }
    let wavelet_type = rgba_data[12] as u32;
    Ok(decode_grid_body(rgba_data, GridTransform::Packet(wavelet_type), PixelStyle::Word))
}

/// Serpentine packing: wavelet packet transform of order `wavelet_type`,
/// coefficients as points of the serpentine walk of the colour cube.
pub fn encode_wavelet_v3_serpentine(data: &[u8], h_custom: usize, wavelet_type: u32) -> (res: Vec<u8>)
    requires
        grid_fits(data@.len(), h_custom as nat),
    ensures
        res@ == spec_encode_grid(
            data@,
            h_custom as nat,
            GridTransform::Packet(wavelet_type),
            PixelStyle::Serpentine,
            wavelet_type as u8,
            3,
        ),
{
    encode_grid(data, h_custom, GridTransform::Packet(wavelet_type), PixelStyle::Serpentine, wavelet_type as u8, 3)
}

/// Decodes a serpentine packing.
pub fn decode_wavelet_v3_serpentine(rgba_data: &[u8]) -> (res: Result<Vec<u8>, CodecError>)
    requires
        grid_decodable(rgba_data@, GridTransform::Packet(header_param(rgba_data@)), PixelStyle::Serpentine),
    ensures
        rgba_data@.len() < 16 ==> res == Err::<Vec<u8>, CodecError>(CodecError::InvalidData(3)),
        rgba_data@.len() >= 16 ==> res is Ok && res.unwrap()@ == spec_decode_grid(
            rgba_data@,
            GridTransform::Packet(header_param(rgba_data@)),
            PixelStyle::Serpentine,
        ),
{
    if rgba_data.len() < 16 {
        return Err(CodecError::InvalidData(3));
    }
    let wavelet_type = rgba_data[12] as u32;
    Ok(decode_grid_body(rgba_data, GridTransform::Packet(wavelet_type), PixelStyle::Serpentine))
}

/// Dyadic packing: column-major samples, a dyadic transform of order
/// `wavelet_type` on each column, serpentine pixels.
pub fn encode_wavelet_v4_dyadic_dwt(data: &[u8], h_custom: usize, wavelet_type: u32) -> (res: Vec<u8>)
    requires
        grid_fits(data@.len(), h_custom as nat),
    ensures
        res@ == spec_encode_grid(
            data@,
            h_custom as nat,
            GridTransform::Dyadic(wavelet_type),
            PixelStyle::Serpentine,
            wavelet_type as u8,
            4,
        ),
{
    encode_grid(data, h_custom, GridTransform::Dyadic(wavelet_type), PixelStyle::Serpentine, wavelet_type as u8, 4)
}

/// Decodes a dyadic packing.
pub fn decode_wavelet_v4_dyadic_dwt(rgba_data: &[u8]) -> (res: Result<Vec<u8>, CodecError>)
    requires
        grid_decodable(rgba_data@, GridTransform::Dyadic(header_param(rgba_data@)), PixelStyle::Serpentine),
    ensures
        rgba_data@.len() < 16 ==> res == Err::<Vec<u8>, CodecError>(CodecError::InvalidData(4)),
        rgba_data@.len() >= 16 ==> res is Ok && res.unwrap()@ == spec_decode_grid(
            rgba_data@,
            GridTransform::Dyadic(header_param(rgba_data@)),
            PixelStyle::Serpentine,
        ),
{
    if rgba_data.len() < 16 {
        return Err(CodecError::InvalidData(4));
    }
    let wavelet_type = rgba_data[12] as u32;
    Ok(decode_grid_body(rgba_data, GridTransform::Dyadic(wavelet_type), PixelStyle::Serpentine))
}

/// Lifting packing: column-major samples, a dyadic CDF 5/3 lifting transform
/// on each column, serpentine pixels.
pub fn encode_wavelet_v5_dyadic_lifting(data: &[u8], h_custom: usize) -> (res: Vec<u8>)
    requires
        grid_fits(data@.len(), h_custom as nat),
    ensures
        res@ == spec_encode_grid(data@, h_custom as nat, GridTransform::Lifting53, PixelStyle::Serpentine, 0, 5),
{
    encode_grid(data, h_custom, GridTransform::Lifting53, PixelStyle::Serpentine, 0, 5)
}

/// Decodes a lifting packing (of version 5 or 6).
pub fn decode_wavelet_v5_dyadic_lifting(rgba_data: &[u8]) -> (res: Result<Vec<u8>, CodecError>)
    requires
        grid_decodable(rgba_data@, GridTransform::Lifting53, PixelStyle::Serpentine),
    ensures
        rgba_data@.len() < 16 ==> res == Err::<Vec<u8>, CodecError>(CodecError::InvalidData(5)),
        rgba_data@.len() >= 16 ==> res is Ok && res.unwrap()@ == spec_decode_grid(
            rgba_data@,
            GridTransform::Lifting53,
            PixelStyle::Serpentine,
        ),
{
    if rgba_data.len() < 16 {
        return Err(CodecError::InvalidData(5));
    }
    Ok(decode_grid_body(rgba_data, GridTransform::Lifting53, PixelStyle::Serpentine))
}

/// The lifting packing under version 6, whose images a spectrogram view
/// reads as well.
pub fn encode_wavelet_v6_reassigned(data: &[u8], h_custom: usize) -> (res: Vec<u8>)
    requires
        grid_fits(data@.len(), h_custom as nat),
    ensures
        res@ == spec_encode_grid(data@, h_custom as nat, GridTransform::Lifting53, PixelStyle::Serpentine, 0, 6),
{
    encode_grid(data, h_custom, GridTransform::Lifting53, PixelStyle::Serpentine, 0, 6)
}

/// Decodes a version 6 packing, which the lifting decoder reads.
pub fn decode_wavelet_v6_reassigned(rgba_data: &[u8]) -> (res: Result<Vec<u8>, CodecError>)
    requires
        grid_decodable(rgba_data@, GridTransform::Lifting53, PixelStyle::Serpentine),
    ensures
        rgba_data@.len() < 16 ==> res == Err::<Vec<u8>, CodecError>(CodecError::InvalidData(5)),
        rgba_data@.len() >= 16 ==> res is Ok && res.unwrap()@ == spec_decode_grid(
            rgba_data@,
            GridTransform::Lifting53,
            PixelStyle::Serpentine,
        ),
{
    decode_wavelet_v5_dyadic_lifting(rgba_data)
}

/// The transforms keep the number of samples.
proof fn lemma_transform_seq_len(t: GridTransform, s: Seq<i16>, depth: nat, forward: bool)
    ensures
        transform_seq(t, s, depth, forward).len() == s.len(),
{
    match t {
        GridTransform::Packet(wt) => lemma_packet_lengths(LiftingFilter::Interpolating(wt), s, depth),
        GridTransform::Dyadic(wt) => lemma_dyadic_lengths(LiftingFilter::Interpolating(wt), s, depth),
        GridTransform::Lifting53 => lemma_dyadic_lengths(LiftingFilter::Cdf53, s, depth),
    }
}

/// The inverse transform undoes the forward one.
proof fn lemma_transform_seq_inverse(t: GridTransform, s: Seq<i16>, depth: nat)
    ensures
        transform_seq(t, transform_seq(t, s, depth, true), depth, false) == s,
{
    match t {
        GridTransform::Packet(wt) => lemma_inverse_packet_of_forward_packet(LiftingFilter::Interpolating(wt), s, depth),
        GridTransform::Dyadic(wt) => lemma_inverse_dyadic_of_forward_dyadic(LiftingFilter::Interpolating(wt), s, depth),
        GridTransform::Lifting53 => lemma_inverse_dyadic_of_forward_dyadic(LiftingFilter::Cdf53, s, depth),
    }
}

/// The grid transforms keep the number of cells.
pub(crate) proof fn lemma_transform_grid_len(t: GridTransform, g: Seq<i16>, w: int, h: int, depth: nat, forward: bool)
    requires
        g.len() == w * h,
        w >= 0,
        h >= 0,
    ensures
        transform_grid(t, g, w, h, depth, forward).len() == w * h,
{
    lemma_transform_seq_len(t, g, depth, forward);
    assert(w * h >= 0) by (nonlinear_arith)
        requires
            w >= 0,
            h >= 0,
    ;
}

/// The inverse grid transform undoes the forward one.
pub proof fn lemma_transform_grid_inverse(t: GridTransform, g: Seq<i16>, w: int, h: int, depth: nat)
    requires
        g.len() == w * h,
        w >= 0,
        h >= 0,
    ensures
        transform_grid(t, transform_grid(t, g, w, h, depth, true), w, h, depth, false) == g,
{
    match t {
        GridTransform::Packet(_) => {
            lemma_transform_seq_inverse(t, g, depth);
        },
        _ => {
            let f = transform_grid(t, g, w, h, depth, true);
            lemma_transform_grid_len(t, g, w, h, depth, true);
            let b = transform_grid(t, f, w, h, depth, false);
            lemma_transform_grid_len(t, f, w, h, depth, false);
            assert forall|k: int| 0 <= k < w * h implies #[trigger] b[k] == g[k] by {
                lemma_cell_of(k, w, h);
                let c = k % w;
                let col = column(g, w, h, c);
                lemma_transform_seq_len(t, col, depth, true);
                assert forall|r: int| 0 <= r < h implies #[trigger] column(f, w, h, c)[r] == transform_seq(
                    t,
                    col,
                    depth,
                    true,
                )[r] by {
                    lemma_cell(r, c, w, h);
                }
                assert(column(f, w, h, c) =~= transform_seq(t, col, depth, true));
                lemma_transform_seq_inverse(t, col, depth);
            }
            assert(b =~= g);
        },
    }
}

/// The PCM bytes of the untransformed sample grids of `data` are `data`.
pub(crate) proof fn lemma_pcm_of_samples(data: Seq<u8>, t: GridTransform, w: int, h: int)
    requires
        w > 0,
        h > 0,
        4 * (w * h) >= data.len(),
        (data.len() + 3) / 4 <= w * h,
    ensures
        spec_pcm_bytes(t, sample_grid(data, t, w, h, false), sample_grid(data, t, w, h, true), w, h, data.len() as int)
            == data,
{
    let mid = sample_grid(data, t, w, h, false);
    let side = sample_grid(data, t, w, h, true);
    let out = spec_pcm_bytes(t, mid, side, w, h, data.len() as int);
    assert forall|j: int| 0 <= j < data.len() implies #[trigger] out[j] == data[j] by {
        let i = j / 4;
        assert(i < w * h);
        let k = pcm_cell(t, i, w, h);
        match t {
            GridTransform::Packet(_) => {},
            _ => {
                assert(h * w == w * h) by (nonlinear_arith);
                lemma_cell_of(i, h, w);
                lemma_cell(i % h, i / h, w, h);
            },
        }
        assert(sample_index(t, k, w, h) == i);
        crate::packing::lemma_pcm_roundtrip(data, i, j % 4);
    }
    assert(out =~= data);
}

/// The header fields read back from a header followed by any body.
pub(crate) proof fn lemma_read_header(len: u32, w_png: u32, h: u32, param: u8, version: u8, body: Seq<u8>)
    ensures
        ({
            let img = spec_header(len, w_png, h, param, version) + body;
            &&& img.len() == 16 + body.len()
            &&& spec_read_be32(img, 0) == len
            &&& spec_read_be32(img, 4) == w_png
            &&& spec_read_be32(img, 8) == h
            &&& img[12] == param
            &&& img[13] == version
        }),
{
    let img = spec_header(len, w_png, h, param, version) + body;
    assert(img.subrange(0, 4) =~= spec_be32(len));
    assert(img.subrange(4, 8) =~= spec_be32(w_png));
    assert(img.subrange(8, 12) =~= spec_be32(h));
    lemma_be32_roundtrip(img, 0, len);
    lemma_be32_roundtrip(img, 4, w_png);
    lemma_be32_roundtrip(img, 8, h);
}

/// The coefficient read at the pixel of cell `k` of a body behind a 16-byte header.
proof fn lemma_read_body(style: PixelStyle, header: Seq<u8>, mid: Seq<i16>, side: Seq<i16>, w: int, h: int, k: int, ch: int)
    requires
        header.len() == 16,
        mid.len() == w * h,
        side.len() == w * h,
        w > 0,
        0 <= k < w * h,
        0 <= ch <= 1,
    ensures
        spec_read_coef(style, header + spec_body(style, mid, side), pixel_offset(2 * w, w, k, ch))
            == if ch == 0 { mid[k] } else { side[k] },
{
    let img = header + spec_body(style, mid, side);
    let body = spec_body(style, mid, side);
    lemma_cell_of(k, w, h);
    assert((k / w) * (2 * w) + 2 * (k % w) == 2 * k) by (nonlinear_arith)
        requires
            k == (k / w) * w + k % w,
    ;
    let off = 16 + 8 * k + 4 * ch;
    assert(pixel_offset(2 * w, w, k, ch) == off);
    let coef = if ch == 0 { mid[k] } else { side[k] };
    assert forall|i: int| 0 <= i < 4 implies #[trigger] img.subrange(off, off + 4)[i] == spec_pixel(style, coef)[i] by {
        assert(img[off + i] == body[8 * k + 4 * ch + i]);
        assert((8 * k + 4 * ch + i) / 8 == k);
        assert((8 * k + 4 * ch + i) % 8 == 4 * ch + i);
    }
    assert(img.subrange(off, off + 4) =~= spec_pixel(style, coef));
    lemma_pixel_roundtrip(style, coef, img, off);
}

/// The grids read back from a body behind a 16-byte header.
proof fn lemma_read_grids(style: PixelStyle, len: u32, h: int, w: int, param: u8, version: u8, mid: Seq<i16>, side: Seq<i16>)
    requires
        mid.len() == w * h,
        side.len() == w * h,
        w > 0,
        h > 0,
        2 * w <= u32::MAX,
        h <= u32::MAX,
    ensures
        ({
            let img = spec_header(len, (2 * w) as u32, h as u32, param, version) + spec_body(style, mid, side);
            &&& read_grid(img, style, false) == mid
            &&& read_grid(img, style, true) == side
        }),
{
    let header = spec_header(len, (2 * w) as u32, h as u32, param, version);
    let img = header + spec_body(style, mid, side);
    lemma_read_header(len, (2 * w) as u32, h as u32, param, version, spec_body(style, mid, side));
    assert forall|k: int| 0 <= k < w * h implies #[trigger] read_grid(img, style, false)[k] == mid[k] by {
        lemma_read_body(style, header, mid, side, w, h, k, 0);
    }
    assert forall|k: int| 0 <= k < w * h implies #[trigger] read_grid(img, style, true)[k] == side[k] by {
        lemma_read_body(style, header, mid, side, w, h, k, 1);
    }
    assert(read_grid(img, style, false) =~= mid);
    assert(read_grid(img, style, true) =~= side);
}

/// Decoding the image of a grid packing gives back the packed bytes, and
/// the image is one the decoder accepts.
pub proof fn lemma_grid_roundtrip(data: Seq<u8>, h_custom: nat, t: GridTransform, style: PixelStyle, param: u8, version: u8)
    requires
        grid_fits(data.len(), h_custom),
    ensures
        ({
            let img = spec_encode_grid(data, h_custom, t, style, param, version);
            &&& img.len() >= 16
            &&& img[12] == param
            &&& grid_decodable(img, t, style)
            &&& spec_decode_grid(img, t, style) == data
        }),
{
    let img = spec_encode_grid(data, h_custom, t, style, param, version);
    let h = spec_effective_height(h_custom) as int;
    let w = spec_grid_width(data.len(), h as nat) as int;
    let depth = floor_log2(h as nat);
    let len = data.len() as int;
    lemma_grid_width(data.len(), h as nat);
    assert(w <= w * h && h <= w * h) by (nonlinear_arith)
        requires
            w >= 2,
            h >= 1,
    ;
    let g_mid = sample_grid(data, t, w, h, false);
    let g_side = sample_grid(data, t, w, h, true);
    let mid = transform_grid(t, g_mid, w, h, depth, true);
    let side = transform_grid(t, g_side, w, h, depth, true);
    lemma_transform_grid_len(t, g_mid, w, h, depth, true);
    lemma_transform_grid_len(t, g_side, w, h, depth, true);
    let body = spec_body(style, mid, side);
    assert(img == spec_header(len as u32, (2 * w) as u32, h as u32, param, version) + body);
    lemma_read_header(len as u32, (2 * w) as u32, h as u32, param, version, body);
    lemma_read_grids(style, len as u32, h, w, param, version, mid, side);
    assert(spec_read_be32(img, 4) as int / 2 == w);
    lemma_transform_grid_inverse(t, g_mid, w, h, depth);
    lemma_transform_grid_inverse(t, g_side, w, h, depth);
    lemma_pcm_of_samples(data, t, w, h);
    assert(w * h - 1 == (h - 1) * w + (w - 1)) by (nonlinear_arith);
    lemma_cell(h - 1, w - 1, w, h);
    assert(pixel_offset(2 * w, w, w * h - 1, 1) == 16 + 4 * ((h - 1) * (2 * w) + 2 * (w - 1)) + 4);
    assert((h - 1) * (2 * w) + 2 * (w - 1) == 2 * (w * h) - 2) by (nonlinear_arith);
}

/// Byte 13 of the image of a grid packing is its version.
pub proof fn lemma_encode_grid_version(
    data: Seq<u8>,
    h_custom: nat,
    t: GridTransform,
    style: PixelStyle,
    param: u8,
    version: u8,
)
    ensures
        spec_encode_grid(data, h_custom, t, style, param, version).len() >= 16,
        spec_encode_grid(data, h_custom, t, style, param, version)[13] == version,
{
    let h = spec_effective_height(h_custom);
    let w = spec_grid_width(data.len(), h);
    let depth = floor_log2(h);
    let mid = transform_grid(t, sample_grid(data, t, w as int, h as int, false), w as int, h as int, depth, true);
    let side = transform_grid(t, sample_grid(data, t, w as int, h as int, true), w as int, h as int, depth, true);
    lemma_read_header(data.len() as u32, (2 * w) as u32, h as u32, param, version, spec_body(style, mid, side));
}

/// Decoding a two-pixel packing gives back the packed bytes, for every
/// filter order that fits the parameter byte.
pub proof fn lemma_v1_roundtrip(data: Seq<u8>, h_custom: nat, wavelet_type: u32)
    requires
        grid_fits(data.len(), h_custom),
        wavelet_type < 256,
    ensures
        ({
            let img = spec_encode_grid(data, h_custom, GridTransform::Packet(wavelet_type), PixelStyle::Word, wavelet_type as u8, 1);
            &&& img.len() >= 16
            &&& header_param(img) == wavelet_type
            &&& grid_decodable(img, GridTransform::Packet(header_param(img)), PixelStyle::Word)
            &&& spec_decode_grid(img, GridTransform::Packet(header_param(img)), PixelStyle::Word) == data
        }),
{
    lemma_grid_roundtrip(data, h_custom, GridTransform::Packet(wavelet_type), PixelStyle::Word, wavelet_type as u8, 1);
}

/// Decoding a serpentine packing gives back the packed bytes, for every
/// filter order that fits the parameter byte.
pub proof fn lemma_v3_roundtrip(data: Seq<u8>, h_custom: nat, wavelet_type: u32)
    requires
        grid_fits(data.len(), h_custom),
        wavelet_type < 256,
    ensures
        ({
            let img = spec_encode_grid(
                data,
                h_custom,
                GridTransform::Packet(wavelet_type),
                PixelStyle::Serpentine,
                wavelet_type as u8,
                3,
            );
            &&& img.len() >= 16
            &&& header_param(img) == wavelet_type
            &&& grid_decodable(img, GridTransform::Packet(header_param(img)), PixelStyle::Serpentine)
            &&& spec_decode_grid(img, GridTransform::Packet(header_param(img)), PixelStyle::Serpentine) == data
        }),
{
    lemma_grid_roundtrip(data, h_custom, GridTransform::Packet(wavelet_type), PixelStyle::Serpentine, wavelet_type as u8, 3);
}

/// Decoding a dyadic packing gives back the packed bytes, for every filter
/// order that fits the parameter byte.
pub proof fn lemma_v4_roundtrip(data: Seq<u8>, h_custom: nat, wavelet_type: u32)
    requires
        grid_fits(data.len(), h_custom),
        wavelet_type < 256,
    ensures
        ({
            let img = spec_encode_grid(
                data,
                h_custom,
                GridTransform::Dyadic(wavelet_type),
                PixelStyle::Serpentine,
                wavelet_type as u8,
                4,
            );
            &&& img.len() >= 16
            &&& header_param(img) == wavelet_type
            &&& grid_decodable(img, GridTransform::Dyadic(header_param(img)), PixelStyle::Serpentine)
            &&& spec_decode_grid(img, GridTransform::Dyadic(header_param(img)), PixelStyle::Serpentine) == data
        }),
{
    lemma_grid_roundtrip(data, h_custom, GridTransform::Dyadic(wavelet_type), PixelStyle::Serpentine, wavelet_type as u8, 4);
}

/// Decoding a lifting packing, of version 5 or 6, gives back the packed bytes.
pub proof fn lemma_lifting_roundtrip(data: Seq<u8>, h_custom: nat, version: u8)
    requires
        grid_fits(data.len(), h_custom),
    ensures
        ({
            let img = spec_encode_grid(data, h_custom, GridTransform::Lifting53, PixelStyle::Serpentine, 0, version);
            &&& img.len() >= 16
            &&& grid_decodable(img, GridTransform::Lifting53, PixelStyle::Serpentine)
            &&& spec_decode_grid(img, GridTransform::Lifting53, PixelStyle::Serpentine) == data
        }),
{
    lemma_grid_roundtrip(data, h_custom, GridTransform::Lifting53, PixelStyle::Serpentine, 0, version);
}

/// Whether the grid packing of `data_len` bytes at the requested height
/// fits the grid limit (see [`grid_fits`]).
pub fn check_grid_fits(data_len: usize, h_custom: usize) -> (res: bool)
    ensures
        res == grid_fits(data_len as nat, h_custom as nat),
{
    let h = effective_height(h_custom) as u128;
    assert(h >= 4);
    proof {
        lemma_grid_width(data_len as nat, h as nat);
        let w = spec_grid_width(data_len as nat, h as nat);
        assert(w * h >= 2 * h) by (nonlinear_arith)
            requires
                w >= 2,
                h >= 0,
        ;
    }
    if h > MAX_GRID_CELLS as u128 {
        return false;
    }
    let num_pairs = (data_len as u128 + 3) / 4;
    let x = num_pairs + h - 1;
    let mut w = x / h;
    assert(w <= x) by (nonlinear_arith)
        requires
            w == x / h,
            h >= 1,
    ;
    if w % 2 != 0 {
        w += 1;
    }
    if w < 2 {
        w = 2;
    }
    assert(w * h <= 0x4_0000_0000_0000_0000u128 * 0x1000_0000u128) by (nonlinear_arith)
        requires
            w <= 0x4_0000_0000_0000_0000u128,
            h <= 0x1000_0000u128,
    ;
    w * h <= MAX_GRID_CELLS as u128
}

} // verus!
