use vstd::prelude::*;

use crate::bitplane::{
    check_v2_decodable, decode_wavelet_v2_bitplane, lemma_v2_roundtrip, spec_decode_v2, spec_encode_v2, v2_decodable, v2_fits,
    v2_size_ok,
};
use crate::codec::CodecError;
use crate::grid_codec::{
    check_grid_decodable, decode_wavelet_v1_two_pixels, decode_wavelet_v3_serpentine, decode_wavelet_v4_dyadic_dwt,
    decode_wavelet_v5_dyadic_lifting, grid_decodable, grid_fits, header_param, lemma_encode_grid_version, lemma_lifting_roundtrip, lemma_v1_roundtrip,
    lemma_v3_roundtrip, lemma_v4_roundtrip, spec_decode_grid, spec_encode_grid, GridTransform, PixelStyle,
};
use crate::snake::{snake_tables_wf, SnakeLut};

verus! {

/// The packing version of an image: byte 13 of its header.
pub open spec fn packing_version(rgba: Seq<u8>) -> u8 {
    rgba[13]
}

/// Whether the decoder that the version byte of `rgba` picks can read it
/// within the library's limits.
pub open spec fn version_decodable(rgba: Seq<u8>) -> bool {
    rgba.len() >= 16 ==> {
        let v = packing_version(rgba);
        &&& v == 1 ==> grid_decodable(rgba, GridTransform::Packet(header_param(rgba)), PixelStyle::Word)
        &&& v == 2 ==> v2_decodable(rgba)
        &&& v == 3 ==> grid_decodable(rgba, GridTransform::Packet(header_param(rgba)), PixelStyle::Serpentine)
        &&& v == 4 ==> grid_decodable(rgba, GridTransform::Dyadic(header_param(rgba)), PixelStyle::Serpentine)
        &&& (v == 5 || v == 6) ==> grid_decodable(rgba, GridTransform::Lifting53, PixelStyle::Serpentine)
    }
}

/// The audio that the codec named by the version byte of `rgba` decodes, or
/// the error it gives.
pub open spec fn spec_decode_by_version(reverse: Seq<u16>, rgba: Seq<u8>) -> Result<Seq<u8>, CodecError> {
    if rgba.len() < 16 {
        Err(CodecError::InvalidInput)
    } else {
        let v = packing_version(rgba);
        if v == 1 {
            Ok(spec_decode_grid(rgba, GridTransform::Packet(header_param(rgba)), PixelStyle::Word))
        } else if v == 2 {
            if v2_size_ok(rgba) {
                Ok(spec_decode_v2(reverse, rgba))
            } else {
                Err(CodecError::InvalidSize)
            }
        } else if v == 3 {
            Ok(spec_decode_grid(rgba, GridTransform::Packet(header_param(rgba)), PixelStyle::Serpentine))
        } else if v == 4 {
            Ok(spec_decode_grid(rgba, GridTransform::Dyadic(header_param(rgba)), PixelStyle::Serpentine))
        } else if v == 5 || v == 6 {
            Ok(spec_decode_grid(rgba, GridTransform::Lifting53, PixelStyle::Serpentine))
        } else {
            Err(CodecError::UnsupportedVersion)
        }
    }
}

/// Decodes an image with the codec that its version byte names: `InvalidInput`
/// below 16 bytes, `UnsupportedVersion` for a version other than 1 to 6,
/// else what that codec's decoder gives.
pub fn decode_by_version(lut: &SnakeLut, rgba: &[u8]) -> (res: Result<Vec<u8>, CodecError>)
    requires
        lut.wf(),
        version_decodable(rgba@),
    ensures
        match spec_decode_by_version(lut.reverse(), rgba@) {
            Ok(bytes) => res is Ok && res.unwrap()@ == bytes,
            Err(e) => res == Err::<Vec<u8>, CodecError>(e),
        },
{
    if rgba.len() < 16 {
        return Err(CodecError::InvalidInput);
    }
    let v = rgba[13];
    if v == 1 {
        decode_wavelet_v1_two_pixels(rgba)
    } else if v == 2 {
        decode_wavelet_v2_bitplane(lut, rgba)
    } else if v == 3 {
        decode_wavelet_v3_serpentine(rgba)
    } else if v == 4 {
        decode_wavelet_v4_dyadic_dwt(rgba)
    } else if v == 5 || v == 6 {
        decode_wavelet_v5_dyadic_lifting(rgba)
    } else {
        Err(CodecError::UnsupportedVersion)
    }
}

/// Whether [`decode_by_version`] can read `rgba` (see [`version_decodable`]).
pub fn check_version_decodable(rgba: &[u8]) -> (res: bool)
    ensures
        res == version_decodable(rgba@),
{
    if rgba.len() < 16 {
        return true;
    }
    let v = rgba[13];
    let p = rgba[12] as u32;
    if v == 1 {
        check_grid_decodable(rgba, GridTransform::Packet(p), PixelStyle::Word)
    } else if v == 2 {
        check_v2_decodable(rgba)
    } else if v == 3 {
        check_grid_decodable(rgba, GridTransform::Packet(p), PixelStyle::Serpentine)
    } else if v == 4 {
        check_grid_decodable(rgba, GridTransform::Dyadic(p), PixelStyle::Serpentine)
    } else if v == 5 || v == 6 {
        check_grid_decodable(rgba, GridTransform::Lifting53, PixelStyle::Serpentine)
    } else {
        true
    }
}

/// Decoding by the version byte gives back the bytes that any grid packing
/// (versions 1, 3, 4, 5 and 6) packed, for every filter order that fits the
/// parameter byte.
pub proof fn lemma_decode_by_version_grid(reverse: Seq<u16>, data: Seq<u8>, h_custom: nat, wavelet_type: u32)
    requires
        grid_fits(data.len(), h_custom),
        wavelet_type < 256,
    ensures
        ({
            let wt = wavelet_type as u8;
            let v1 = spec_encode_grid(data, h_custom, GridTransform::Packet(wavelet_type), PixelStyle::Word, wt, 1);
            let v3 = spec_encode_grid(data, h_custom, GridTransform::Packet(wavelet_type), PixelStyle::Serpentine, wt, 3);
            let v4 = spec_encode_grid(data, h_custom, GridTransform::Dyadic(wavelet_type), PixelStyle::Serpentine, wt, 4);
            let v5 = spec_encode_grid(data, h_custom, GridTransform::Lifting53, PixelStyle::Serpentine, 0, 5);
            let v6 = spec_encode_grid(data, h_custom, GridTransform::Lifting53, PixelStyle::Serpentine, 0, 6);
            &&& version_decodable(v1) && spec_decode_by_version(reverse, v1) == Ok::<Seq<u8>, CodecError>(data)
            &&& version_decodable(v3) && spec_decode_by_version(reverse, v3) == Ok::<Seq<u8>, CodecError>(data)
            &&& version_decodable(v4) && spec_decode_by_version(reverse, v4) == Ok::<Seq<u8>, CodecError>(data)
            &&& version_decodable(v5) && spec_decode_by_version(reverse, v5) == Ok::<Seq<u8>, CodecError>(data)
            &&& version_decodable(v6) && spec_decode_by_version(reverse, v6) == Ok::<Seq<u8>, CodecError>(data)
        }),
{
    let wt = wavelet_type as u8;
    lemma_v1_roundtrip(data, h_custom, wavelet_type);
    lemma_encode_grid_version(data, h_custom, GridTransform::Packet(wavelet_type), PixelStyle::Word, wt, 1);
    lemma_v3_roundtrip(data, h_custom, wavelet_type);
    lemma_encode_grid_version(data, h_custom, GridTransform::Packet(wavelet_type), PixelStyle::Serpentine, wt, 3);
    lemma_v4_roundtrip(data, h_custom, wavelet_type);
    lemma_encode_grid_version(data, h_custom, GridTransform::Dyadic(wavelet_type), PixelStyle::Serpentine, wt, 4);
    lemma_lifting_roundtrip(data, h_custom, 5);
    lemma_encode_grid_version(data, h_custom, GridTransform::Lifting53, PixelStyle::Serpentine, 0, 5);
    lemma_lifting_roundtrip(data, h_custom, 6);
    lemma_encode_grid_version(data, h_custom, GridTransform::Lifting53, PixelStyle::Serpentine, 0, 6);
}

/// Decoding by the version byte gives back the bytes that the bitplane
/// packing packed, for every filter order that fits the parameter byte.
pub proof fn lemma_decode_by_version_v2(
    colors: Seq<(u8, u8, u8)>,
    reverse: Seq<u16>,
    data: Seq<u8>,
    h_custom: nat,
    wavelet_type: u32,
)
    requires
        snake_tables_wf(colors, reverse),
        v2_fits(data.len(), h_custom),
        wavelet_type < 256,
    ensures
        version_decodable(spec_encode_v2(colors, data, h_custom, wavelet_type)),
        spec_decode_by_version(reverse, spec_encode_v2(colors, data, h_custom, wavelet_type)) == Ok::<
            Seq<u8>,
            CodecError,
        >(data),
{
    lemma_v2_roundtrip(colors, reverse, data, h_custom, wavelet_type);
}

} // verus!
