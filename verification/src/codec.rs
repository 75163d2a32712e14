use vstd::prelude::*;

use crate::packing::{push_be32, read_be32, spec_be32, spec_read_be32, lemma_be32_roundtrip};

verus! {

/// Why an image could not be decoded.
#[derive(Clone, Copy, Debug, PartialEq, Eq)]
pub enum CodecError {
    /// The image is too short to hold the header of the given packing
    /// version (0 for the naive packing).
    InvalidData(u8),
    /// The single-pixel image is shorter than its header announces.
    InvalidSize,
    /// The image is too short to hold a 24-byte header.
    InvalidInput,
    /// The four-pixel image ends before its last pixel.
    TruncatedImage,
    /// The appended PCM stream ends before the length its header announces.
    TruncatedPayload,
    /// The appended PCM stream of a constant-Q image ends early.
    CorruptedPayload,
    /// The packing version byte names no codec that decodes to audio.
    UnsupportedVersion,
}

/// `n` zero bytes.
pub open spec fn zeros(n: nat) -> Seq<u8> {
    Seq::new(n, |i: int| 0u8)
}

/// Naive packing: the big-endian length, the bytes, then zero padding up to
/// a multiple of four bytes.
pub open spec fn spec_encode_naive(data: Seq<u8>) -> Seq<u8> {
    let body = spec_be32(data.len() as u32) + data;
    let pad = if body.len() % 4 == 0 { 0 } else { 4 - body.len() % 4 };
    body + zeros(pad as nat)
}

/// Whether the naive decoder can read the bytes that `rgba` announces.
pub open spec fn naive_decodable(rgba: Seq<u8>) -> bool {
    rgba.len() >= 4 ==> 4 + spec_read_be32(rgba, 0) <= rgba.len()
}

/// Appends `src[from..to]` to `out`.
pub fn extend_from_range(out: &mut Vec<u8>, src: &[u8], from: usize, to: usize)
    requires
        from <= to <= src@.len(),
    ensures
        final(out)@ == old(out)@ + src@.subrange(from as int, to as int),
{
    let ghost start = out@;
    let mut i = from;
    while i < to
        invariant
            from <= i <= to <= src@.len(),
            out@ == start + src@.subrange(from as int, i as int),
        decreases to - i,
    {
        out.push(src[i]);
        i += 1;
        assert(out@ =~= start + src@.subrange(from as int, i as int));
    }
}

/// Packs `data` behind its big-endian length, padded to whole pixels.
pub fn encode_naive(data: &[u8]) -> (res: Vec<u8>)
    requires
        data@.len() <= u32::MAX,
    ensures
        res@ == spec_encode_naive(data@),
{
    let original_len = data.len() as u32;
    let mut encoded: Vec<u8> = Vec::new();
    push_be32(&mut encoded, original_len);
    extend_from_range(&mut encoded, data, 0, data.len());
    assert(data@.subrange(0, data@.len() as int) =~= data@);
    let remainder = encoded.len() % 4;
    let ghost body = encoded@;
    assert(body =~= spec_be32(data@.len() as u32) + data@);
    if remainder != 0 {
        let padding_needed = 4 - remainder;
        let mut k: usize = 0;
        while k < padding_needed
            invariant
                padding_needed <= 3,
                k <= padding_needed,
                padding_needed == 4 - body.len() % 4,
                encoded@ == body + zeros(k as nat),
            decreases padding_needed - k,
        {
            encoded.push(0u8);
            k += 1;
            assert(encoded@ =~= body + zeros(k as nat));
        }
    } else {
        assert(encoded@ =~= body + zeros(0));
    }
    assert(encoded@ =~= spec_encode_naive(data@));
    encoded
}

/// Unpacks the bytes of a naive packing.
pub fn decode_naive(rgba_data: &[u8]) -> (res: Result<Vec<u8>, CodecError>)
    requires
        naive_decodable(rgba_data@),
    ensures
        rgba_data@.len() < 4 ==> res == Err::<Vec<u8>, CodecError>(CodecError::InvalidData(0)),
        rgba_data@.len() >= 4 ==> res is Ok && res.unwrap()@ == rgba_data@.subrange(
            4,
            4 + spec_read_be32(rgba_data@, 0),
        ),
{
    if rgba_data.len() < 4 {
        return Err(CodecError::InvalidData(0));
    }
    let original_len = read_be32(rgba_data, 0) as usize;
    let mut out: Vec<u8> = Vec::new();
    extend_from_range(&mut out, rgba_data, 4, 4 + original_len);
    assert(out@ =~= rgba_data@.subrange(4, 4 + spec_read_be32(rgba_data@, 0)));
    Ok(out)
}

/// Unpacking a naive packing gives back the packed bytes.
pub proof fn lemma_naive_roundtrip(data: Seq<u8>)
    requires
        data.len() <= u32::MAX,
    ensures
        naive_decodable(spec_encode_naive(data)),
        spec_encode_naive(data).len() >= 4,
        spec_encode_naive(data).subrange(4, 4 + spec_read_be32(spec_encode_naive(data), 0)) == data,
{
    let e = spec_encode_naive(data);
    assert(e.subrange(0, 4) =~= spec_be32(data.len() as u32));
    lemma_be32_roundtrip(e, 0, data.len() as u32);
    assert(e.subrange(4, 4 + data.len() as int) =~= data);
}

/// The naive packing under its legacy name.
pub fn encode_naive_v0(data: &[u8]) -> (res: Vec<u8>)
    requires
        data@.len() <= u32::MAX,
    ensures
        res@ == spec_encode_naive(data@),
{
    encode_naive(data)
}

/// Decodes the naive packing under its legacy name.
pub fn decode_naive_v0(rgba_data: &[u8]) -> (res: Result<Vec<u8>, CodecError>)
    requires
        naive_decodable(rgba_data@),
    ensures
        rgba_data@.len() < 4 ==> res == Err::<Vec<u8>, CodecError>(CodecError::InvalidData(0)),
        rgba_data@.len() >= 4 ==> res is Ok && res.unwrap()@ == rgba_data@.subrange(
            4,
            4 + spec_read_be32(rgba_data@, 0),
        ),
{
    decode_naive(rgba_data)
}

/// Whether the naive decoder can read the bytes that `rgba_data` announces
/// (see [`naive_decodable`]).
pub fn check_naive_decodable(rgba_data: &[u8]) -> (res: bool)
    ensures
        res == naive_decodable(rgba_data@),
{
    if rgba_data.len() < 4 {
        return true;
    }
    let len = read_be32(rgba_data, 0) as u64;
    4 + len <= rgba_data.len() as u64
}

} // verus!
