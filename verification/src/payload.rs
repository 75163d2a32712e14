use vstd::prelude::*;

use crate::codec::{CodecError, extend_from_range};
use crate::grid_codec::{
    calculate_grid_width, effective_height, grid_fits, lemma_grid_width, lemma_read_header, pcm_start,
    spec_effective_height, spec_grid_width, spec_header, spec_pcm_start, MAX_GRID_CELLS,
};
use crate::packing::{lemma_be32_roundtrip, push_be16, push_be32, read_be32, spec_be16, spec_be32, spec_read_be32};
use crate::snake::{SnakeLut, get_color_b, get_color_g, get_color_r};

verus! {

/// Width in pixels of the reassigned spectrogram image.
pub const V9_WIDTH: usize = 800;

/// Where the appended PCM stream of a constant-Q image starts: after the
/// 16-byte header and four bytes per pixel of the announced image.
pub open spec fn v7_payload_start(rgba: Seq<u8>) -> int {
    16 + 4 * (spec_read_be32(rgba, 4) * spec_read_be32(rgba, 8))
}

/// Where the appended PCM stream of a reassigned image starts: after the
/// 24-byte header and four bytes per pixel of the announced image.
pub open spec fn v9_payload_start(rgba: Seq<u8>) -> int {
    24 + 4 * (spec_read_be32(rgba, 4) * spec_read_be32(rgba, 8))
}

/// The `len` bytes of `rgba` from `start` on, or `None` past its end.
fn payload_at(rgba: &[u8], start: u128, len: u128) -> (res: Option<Vec<u8>>)
    ensures
        start + len > rgba@.len() ==> res is None,
        start + len <= rgba@.len() ==> res is Some && res.unwrap()@ == rgba@.subrange(
            start as int,
            start + len,
        ),
{
    if start > rgba.len() as u128 || len > rgba.len() as u128 - start {
        return None;
    }
    let mut out: Vec<u8> = Vec::new();
    extend_from_range(&mut out, rgba, start as usize, (start + len) as usize);
    Some(out)
}

/// Decodes a constant-Q image: the PCM stream appended after its pixels.
pub fn decode_wavelet_v7_cqt(rgba_data: &[u8]) -> (res: Result<Vec<u8>, CodecError>)
    ensures
        rgba_data@.len() < 16 ==> res == Err::<Vec<u8>, CodecError>(CodecError::InvalidInput),
        rgba_data@.len() >= 16 && v7_payload_start(rgba_data@) + spec_read_be32(rgba_data@, 0) > rgba_data@.len()
            ==> res == Err::<Vec<u8>, CodecError>(CodecError::CorruptedPayload),
        rgba_data@.len() >= 16 && v7_payload_start(rgba_data@) + spec_read_be32(rgba_data@, 0) <= rgba_data@.len()
            ==> res is Ok && res.unwrap()@ == rgba_data@.subrange(
            v7_payload_start(rgba_data@),
            v7_payload_start(rgba_data@) + spec_read_be32(rgba_data@, 0),
        ),
{
    if rgba_data.len() < 16 {
        return Err(CodecError::InvalidInput);
    }
    let len = read_be32(rgba_data, 0) as u128;
    let w_png = read_be32(rgba_data, 4) as u128;
    let h = read_be32(rgba_data, 8) as u128;
    assert(w_png * h <= 0xffff_ffffu128 * 0xffff_ffffu128) by (nonlinear_arith)
        requires
            w_png <= 0xffff_ffffu128,
            h <= 0xffff_ffffu128,
    ;
    let cells = w_png * h;
    match payload_at(rgba_data, 16 + 4 * cells, len) {
        Some(pcm) => Ok(pcm),
        None => Err(CodecError::CorruptedPayload),
    }
}

/// Decodes a reassigned image: the PCM stream appended after its pixels.
pub fn decode_wavelet_v9_reassigned(rgba_data: &[u8]) -> (res: Result<Vec<u8>, CodecError>)
    ensures
        rgba_data@.len() < 24 ==> res == Err::<Vec<u8>, CodecError>(CodecError::InvalidInput),
        rgba_data@.len() >= 24 && v9_payload_start(rgba_data@) + spec_read_be32(rgba_data@, 0) > rgba_data@.len()
            ==> res == Err::<Vec<u8>, CodecError>(CodecError::TruncatedPayload),
        rgba_data@.len() >= 24 && v9_payload_start(rgba_data@) + spec_read_be32(rgba_data@, 0) <= rgba_data@.len()
            ==> res is Ok && res.unwrap()@ == rgba_data@.subrange(
            v9_payload_start(rgba_data@),
            v9_payload_start(rgba_data@) + spec_read_be32(rgba_data@, 0),
        ),
{
    if rgba_data.len() < 24 {
        return Err(CodecError::InvalidInput);
    }
    let len = read_be32(rgba_data, 0) as u128;
    let w = read_be32(rgba_data, 4) as u128;
    let h = read_be32(rgba_data, 8) as u128;
    assert(w * h <= 0xffff_ffffu128 * 0xffff_ffffu128) by (nonlinear_arith)
        requires
            w <= 0xffff_ffffu128,
            h <= 0xffff_ffffu128,
    ;
    let cells = w * h;
    match payload_at(rgba_data, 24 + 4 * cells, len) {
        Some(pcm) => Ok(pcm),
        None => Err(CodecError::TruncatedPayload),
    }
}

/// The constant-Q image of `data`: the header, two pixels of the snake
/// colour of each code of the grid (row-major), then `data` itself.
pub open spec fn spec_frame_v7(colors: Seq<(u8, u8, u8)>, data: Seq<u8>, h_custom: nat, codes: Seq<u16>) -> Seq<u8> {
    let h = spec_effective_height(h_custom);
    let w = spec_grid_width(data.len(), h);
    spec_header(data.len() as u32, (2 * w) as u32, h as u32, 0, 7) + Seq::new(
        8 * codes.len(),
        |j: int|
            {
                let c = colors[codes[j / 8] as int];
                let t = j % 4;
                if t == 0 { c.0 } else if t == 1 { c.1 } else if t == 2 { c.2 } else { 255u8 }
            },
    ) + data
}

/// Frames the constant-Q image of `data` from the snake codes of its grid
/// cells (see [`spec_frame_v7`]).
pub fn frame_wavelet_v7_cqt(lut: &SnakeLut, data: &[u8], h_custom: usize, codes: &[u16]) -> (res: Vec<u8>)
    requires
        lut.wf(),
        grid_fits(data@.len(), h_custom as nat),
        codes@.len() == spec_grid_width(data@.len(), spec_effective_height(h_custom as nat)) * spec_effective_height(
            h_custom as nat,
        ),
    ensures
        res@ == spec_frame_v7(lut.colors(), data@, h_custom as nat, codes@),
{
    let h = effective_height(h_custom);
    proof {
        lemma_grid_width(data@.len(), h as nat);
        let w = spec_grid_width(data@.len(), h as nat);
        assert(h <= w * h) by (nonlinear_arith)
            requires
                w >= 2,
        ;
    }
    let w = calculate_grid_width(data.len(), h);
    let mut out: Vec<u8> = Vec::new();
    push_be32(&mut out, data.len() as u32);
    push_be32(&mut out, (2 * w) as u32);
    push_be32(&mut out, h as u32);
    out.push(0u8);
    out.push(7u8);
    push_be16(&mut out, 44100u16);
    let ghost header = spec_header(data@.len() as u32, (2 * w) as u32, h as u32, 0, 7);
    let ghost colors = lut.colors();
    assert(out@ =~= header);
    let mut k: usize = 0;
    while k < codes.len()
        invariant
            lut.wf(),
            colors == lut.colors(),
            k <= codes@.len(),
            out@ =~= header + Seq::new(
                8 * k as nat,
                |j: int|
                    {
                        let c = colors[codes@[j / 8] as int];
                        let t = j % 4;
                        if t == 0 { c.0 } else if t == 1 { c.1 } else if t == 2 { c.2 } else { 255u8 }
                    },
            ),
        decreases codes@.len() - k,
    {
        let code = codes[k];
        let r = get_color_r(lut, code);
        let g = get_color_g(lut, code);
        let b = get_color_b(lut, code);
        out.push(r);
        out.push(g);
        out.push(b);
        out.push(255u8);
        out.push(r);
        out.push(g);
        out.push(b);
        out.push(255u8);
        k += 1;
        assert(out@ =~= header + Seq::new(
            8 * k as nat,
            |j: int|
                {
                    let c = colors[codes@[j / 8] as int];
                    let t = j % 4;
                    if t == 0 { c.0 } else if t == 1 { c.1 } else if t == 2 { c.2 } else { 255u8 }
                },
        ));
    }
    let ghost body = out@;
    extend_from_range(&mut out, data, 0, data.len());
    assert(data@.subrange(0, data@.len() as int) =~= data@);
    out
}

/// Width in cells of the constant-Q grid of `data`: the grid width of half
/// the PCM bytes past any WAV header.
pub open spec fn stft_v8_width(data: Seq<u8>, h: nat) -> nat {
    spec_grid_width(((data.len() - spec_pcm_start(data)) / 2) as nat, h)
}

/// The constant-Q image of `data` in the four-band layout: the header
/// (image width four pixels per cell, version 8), eight zero bytes, then one
/// pixel of the snake colour of each code, row-major, four codes per cell.
pub open spec fn spec_frame_stft_v8(
    colors: Seq<(u8, u8, u8)>,
    data: Seq<u8>,
    h_custom: nat,
    codes: Seq<u16>,
) -> Seq<u8> {
    let h = spec_effective_height(h_custom);
    let w = stft_v8_width(data, h);
    spec_header(data.len() as u32, (4 * w) as u32, h as u32, 0, 8) + Seq::new(8, |i: int| 0u8) + Seq::new(
        4 * codes.len(),
        |j: int|
            {
                let c = colors[codes[j / 4] as int];
                let t = j % 4;
                if t == 0 { c.0 } else if t == 1 { c.1 } else if t == 2 { c.2 } else { 255u8 }
            },
    )
}

/// Frames the four-band constant-Q image of `data` from the snake codes of
/// its cells (see [`spec_frame_stft_v8`]): per cell the two mid and the two
/// side codes of its two frames.
pub fn frame_stft_cqt_v8_layout(lut: &SnakeLut, data: &[u8], h_custom: usize, codes: &[u16]) -> (res: Vec<u8>)
    requires
        lut.wf(),
        data@.len() <= u32::MAX,
        stft_v8_width(data@, spec_effective_height(h_custom as nat)) * spec_effective_height(h_custom as nat)
            <= MAX_GRID_CELLS,
        codes@.len() == 4 * (stft_v8_width(data@, spec_effective_height(h_custom as nat)) * spec_effective_height(
            h_custom as nat,
        )),
    ensures
        res@ == spec_frame_stft_v8(lut.colors(), data@, h_custom as nat, codes@),
{
    let h = effective_height(h_custom);
    let start = pcm_start(data);
    let half = (data.len() - start) / 2;
    proof {
        lemma_grid_width(half as nat, h as nat);
        let w = spec_grid_width(half as nat, h as nat);
        assert(h <= w * h && w <= w * h) by (nonlinear_arith)
            requires
                w >= 2,
                h >= 1,
        ;
    }
    let w = calculate_grid_width(half, h);
    let mut out: Vec<u8> = Vec::new();
    push_be32(&mut out, data.len() as u32);
    push_be32(&mut out, (4 * w) as u32);
    push_be32(&mut out, h as u32);
    out.push(0u8);
    out.push(8u8);
    push_be16(&mut out, 44100u16);
    let mut z: usize = 0;
    while z < 8
        invariant
            z <= 8,
            out@ =~= spec_header(data@.len() as u32, (4 * w) as u32, h as u32, 0, 8) + Seq::new(
                z as nat,
                |i: int| 0u8,
            ),
        decreases 8 - z,
    {
        out.push(0u8);
        z += 1;
    }
    let ghost head = out@;
    let ghost colors = lut.colors();
    let mut k: usize = 0;
    while k < codes.len()
        invariant
            lut.wf(),
            colors == lut.colors(),
            k <= codes@.len(),
            out@ =~= head + Seq::new(
                4 * k as nat,
                |j: int|
                    {
                        let c = colors[codes@[j / 4] as int];
                        let t = j % 4;
                        if t == 0 { c.0 } else if t == 1 { c.1 } else if t == 2 { c.2 } else { 255u8 }
                    },
            ),
        decreases codes@.len() - k,
    {
        let code = codes[k];
        out.push(get_color_r(lut, code));
        out.push(get_color_g(lut, code));
        out.push(get_color_b(lut, code));
        out.push(255u8);
        k += 1;
        assert(out@ =~= head + Seq::new(
            4 * k as nat,
            |j: int|
                {
                    let c = colors[codes@[j / 4] as int];
                    let t = j % 4;
                    if t == 0 { c.0 } else if t == 1 { c.1 } else if t == 2 { c.2 } else { 255u8 }
                },
        ));
    }
    out
}

/// The four-band constant-Q image has the announced layout: 24 header bytes
/// (length, width of four pixels per cell, height, version 8, the sample
/// rate and eight zero bytes), then four bytes per code, each pixel opaque.
pub proof fn lemma_frame_stft_v8_layout(colors: Seq<(u8, u8, u8)>, data: Seq<u8>, h_custom: nat, codes: Seq<u16>)
    requires
        data.len() <= u32::MAX,
        stft_v8_width(data, spec_effective_height(h_custom)) * spec_effective_height(h_custom) <= MAX_GRID_CELLS,
        codes.len() == 4 * (stft_v8_width(data, spec_effective_height(h_custom)) * spec_effective_height(h_custom)),
    ensures
        ({
            let h = spec_effective_height(h_custom);
            let w = stft_v8_width(data, h);
            let o = spec_frame_stft_v8(colors, data, h_custom, codes);
            &&& o.len() == 24 + 16 * (w * h)
            &&& spec_read_be32(o, 0) == data.len()
            &&& spec_read_be32(o, 4) == 4 * w
            &&& spec_read_be32(o, 8) == h
            &&& o[12] == 0u8
            &&& o[13] == 8u8
            &&& o[14] == 172u8
            &&& o[15] == 68u8
            &&& forall|i: int| 16 <= i < 24 ==> o[i] == 0u8
            &&& forall|k: int| 0 <= k < 4 * (w * h) ==> #[trigger] o[24 + 4 * k + 3] == 255u8
        }),
{
    let h = spec_effective_height(h_custom);
    let w = stft_v8_width(data, h);
    let pixels = Seq::new(
        4 * codes.len(),
        |j: int|
            {
                let c = colors[codes[j / 4] as int];
                let t = j % 4;
                if t == 0 { c.0 } else if t == 1 { c.1 } else if t == 2 { c.2 } else { 255u8 }
            },
    );
    let body = Seq::new(8, |i: int| 0u8) + pixels;
    lemma_grid_width(((data.len() - spec_pcm_start(data)) / 2) as nat, h);
    assert(w * h >= w && w * h >= h) by (nonlinear_arith)
        requires
            h >= 1,
            w >= 2,
    ;
    assert(4 * w <= u32::MAX && h <= u32::MAX);
    lemma_read_header(data.len() as u32, (4 * w) as u32, h as u32, 0, 8, body);
    let o = spec_frame_stft_v8(colors, data, h_custom, codes);
    assert(o == spec_header(data.len() as u32, (4 * w) as u32, h as u32, 0, 8) + body);
    assert(spec_be16(44100) == seq![172u8, 68u8]);
    assert(o.len() == 24 + 16 * (w * h));
    assert(o[14] == 172u8 && o[15] == 68u8);
    assert forall|i: int| 16 <= i < 24 implies o[i] == 0u8 by {
        assert(o[i] == body[i - 16]);
    }
    assert forall|k: int| 0 <= k < 4 * (w * h) implies #[trigger] o[24 + 4 * k + 3] == 255u8 by {
        assert((4 * k + 3) / 4 == k);
        assert((4 * k + 3) % 4 == 3);
        assert(o[24 + 4 * k + 3] == pixels[4 * k + 3]);
    }
}

/// The reassigned image of `data`: the 24-byte header, the pixels of the
/// spectrogram image `spectrogram` past its own 24-byte header (800 pixels
/// per row, one row per grid line), then `data` itself.
pub open spec fn spec_frame_v9(data: Seq<u8>, h_custom: nat, spectrogram: Seq<u8>) -> Seq<u8> {
    let h = spec_effective_height(h_custom);
    spec_be32(data.len() as u32) + spec_be32(V9_WIDTH as u32) + spec_be32(h as u32) + seq![0u8, 9u8] + spec_be16(
        44100,
    ) + Seq::new(8, |i: int| 0u8) + spectrogram.subrange(24, 24 + 4 * (V9_WIDTH * h)) + data
}

/// Frames the reassigned image of `data` around the pixels of its
/// spectrogram image (see [`spec_frame_v9`]).
pub fn frame_wavelet_v9_reassigned(data: &[u8], h_custom: usize, spectrogram: &[u8]) -> (res: Vec<u8>)
    requires
        data@.len() <= u32::MAX,
        24 + 4 * (V9_WIDTH * spec_effective_height(h_custom as nat)) <= spectrogram@.len(),
    ensures
        res@ == spec_frame_v9(data@, h_custom as nat, spectrogram@),
{
    let h = effective_height(h_custom);
    let total = spectrogram.len();
    let end = 24 + 4 * (V9_WIDTH * h);
    let mut out: Vec<u8> = Vec::new();
    push_be32(&mut out, data.len() as u32);
    push_be32(&mut out, V9_WIDTH as u32);
    push_be32(&mut out, h as u32);
    out.push(0u8);
    out.push(9u8);
    push_be16(&mut out, 44100u16);
    let ghost prefix = out@;
    let mut i: usize = 0;
    while i < 8
        invariant
            i <= 8,
            out@ =~= prefix + Seq::new(i as nat, |j: int| 0u8),
        decreases 8 - i,
    {
        out.push(0u8);
        i += 1;
        assert(out@ =~= prefix + Seq::new(i as nat, |j: int| 0u8));
    }
    extend_from_range(&mut out, spectrogram, 24, end);
    extend_from_range(&mut out, data, 0, data.len());
    assert(data@.subrange(0, data@.len() as int) =~= data@);
    assert(out@ =~= spec_frame_v9(data@, h_custom as nat, spectrogram@));
    out
}

/// Decoding a constant-Q image gives back the bytes it was framed around.
pub proof fn lemma_v7_roundtrip(colors: Seq<(u8, u8, u8)>, data: Seq<u8>, h_custom: nat, codes: Seq<u16>)
    requires
        grid_fits(data.len(), h_custom),
        codes.len() == spec_grid_width(data.len(), spec_effective_height(h_custom)) * spec_effective_height(h_custom),
    ensures
        ({
            let img = spec_frame_v7(colors, data, h_custom, codes);
            &&& img.len() >= 16
            &&& v7_payload_start(img) + spec_read_be32(img, 0) <= img.len()
            &&& img.subrange(v7_payload_start(img), v7_payload_start(img) + spec_read_be32(img, 0)) == data
        }),
{
    let h = spec_effective_height(h_custom);
    let w = spec_grid_width(data.len(), h);
    lemma_grid_width(data.len(), h);
    assert(w <= w * h && h <= w * h) by (nonlinear_arith)
        requires
            w >= 2,
            h >= 1,
    ;
    let pixels = Seq::new(
        8 * codes.len(),
        |j: int|
            {
                let c = colors[codes[j / 8] as int];
                let t = j % 4;
                if t == 0 { c.0 } else if t == 1 { c.1 } else if t == 2 { c.2 } else { 255u8 }
            },
    );
    let img = spec_frame_v7(colors, data, h_custom, codes);
    let hd = spec_header(data.len() as u32, (2 * w) as u32, h as u32, 0, 7);
    assert(img =~= hd + (pixels + data));
    lemma_read_header(data.len() as u32, (2 * w) as u32, h as u32, 0, 7, pixels + data);
    assert(v7_payload_start(img) == 16 + 8 * codes.len()) by (nonlinear_arith)
        requires
            v7_payload_start(img) == 16 + 4 * (spec_read_be32(img, 4) * spec_read_be32(img, 8)),
            spec_read_be32(img, 4) == 2 * w,
            spec_read_be32(img, 8) == h,
            codes.len() == w * h,
    ;
    assert(img.subrange(16 + 8 * codes.len() as int, 16 + 8 * codes.len() as int + data.len()) =~= data);
}

/// Decoding a reassigned image gives back the bytes it was framed around,
/// for every grid height that the header can hold.
pub proof fn lemma_v9_roundtrip(data: Seq<u8>, h_custom: nat, spectrogram: Seq<u8>)
    requires
        data.len() <= u32::MAX,
        spec_effective_height(h_custom) <= u32::MAX,
        24 + 4 * (V9_WIDTH * spec_effective_height(h_custom)) <= spectrogram.len(),
    ensures
        ({
            let img = spec_frame_v9(data, h_custom, spectrogram);
            &&& img.len() >= 24
            &&& v9_payload_start(img) + spec_read_be32(img, 0) <= img.len()
            &&& img.subrange(v9_payload_start(img), v9_payload_start(img) + spec_read_be32(img, 0)) == data
        }),
{
    let h = spec_effective_height(h_custom);
    let img = spec_frame_v9(data, h_custom, spectrogram);
    let n = 4 * (V9_WIDTH * h);
    assert(img.subrange(0, 4) =~= spec_be32(data.len() as u32));
    assert(img.subrange(4, 8) =~= spec_be32(V9_WIDTH as u32));
    assert(img.subrange(8, 12) =~= spec_be32(h as u32));
    lemma_be32_roundtrip(img, 0, data.len() as u32);
    lemma_be32_roundtrip(img, 4, V9_WIDTH as u32);
    lemma_be32_roundtrip(img, 8, h as u32);
    assert(v9_payload_start(img) == 24 + n);
    assert(img.subrange(24 + n, 24 + n + data.len()) =~= data);
}

} // verus!
