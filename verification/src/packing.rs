use vstd::prelude::*;

use crate::stereo::{spec_lr_to_ms, spec_ms_to_lr, lr_to_ms};

verus! {

/// The byte at position `k` of `data`, or zero past its end.
pub open spec fn byte_or_zero(data: Seq<u8>, k: int) -> u8 {
    if 0 <= k < data.len() { data[k] } else { 0 }
}

/// The signed 16-bit value of a little-endian byte pair.
pub open spec fn le_i16(lo: u8, hi: u8) -> i16 {
    let u = hi as int * 256 + lo as int;
    (if u >= 32768 { u - 65536 } else { u }) as i16
}

/// Low byte of the two's-complement form of `x`.
pub open spec fn low_byte(x: i16) -> u8 {
    ((if x < 0 { x + 65536 } else { x as int }) % 256) as u8
}

/// High byte of the two's-complement form of `x`.
pub open spec fn high_byte(x: i16) -> u8 {
    ((if x < 0 { x + 65536 } else { x as int }) / 256) as u8
}

/// The stereo sample pair `i` of 16-bit little-endian PCM `data`
/// (left then right), with missing bytes read as zero.
pub open spec fn spec_sample_pair(data: Seq<u8>, i: int) -> (i16, i16) {
    (
        le_i16(byte_or_zero(data, 4 * i), byte_or_zero(data, 4 * i + 1)),
        le_i16(byte_or_zero(data, 4 * i + 2), byte_or_zero(data, 4 * i + 3)),
    )
}

/// Mid/side values of the stereo sample pair `i` of `data`.
pub open spec fn spec_ms_pair(data: Seq<u8>, i: int) -> (i16, i16) {
    spec_lr_to_ms(spec_sample_pair(data, i).0, spec_sample_pair(data, i).1)
}

/// Byte `k` (0 to 3) of the little-endian PCM form of the stereo pair `(l, r)`.
pub open spec fn pcm_byte(l: i16, r: i16, k: int) -> u8 {
    if k == 0 {
        low_byte(l)
    } else if k == 1 {
        high_byte(l)
    } else if k == 2 {
        low_byte(r)
    } else {
        high_byte(r)
    }
}

/// Byte `k` of the PCM stream of the mid/side pair `(m, s)`.
pub open spec fn ms_pcm_byte(m: i16, s: i16, k: int) -> u8 {
    pcm_byte(spec_ms_to_lr(m, s).0, spec_ms_to_lr(m, s).1, k)
}

/// Big-endian bytes of a 32-bit value.
pub open spec fn spec_be32(v: u32) -> Seq<u8> {
    seq![(v / 0x100_0000) as u8, ((v / 0x1_0000) % 256) as u8, ((v / 256) % 256) as u8, (v % 256) as u8]
}

/// Big-endian bytes of a 16-bit value.
pub open spec fn spec_be16(v: u16) -> Seq<u8> {
    seq![(v / 256) as u8, (v % 256) as u8]
}

/// The 32-bit value of the big-endian bytes of `s` from `off` on.
pub open spec fn spec_read_be32(s: Seq<u8>, off: int) -> u32 {
    (s[off] as int * 0x100_0000 + s[off + 1] as int * 0x1_0000 + s[off + 2] as int * 256 + s[off + 3] as int) as u32
}

/// Reading back big-endian bytes gives the value.
pub proof fn lemma_be32_roundtrip(s: Seq<u8>, off: int, v: u32)
    requires
        0 <= off,
        off + 4 <= s.len(),
        s.subrange(off, off + 4) == spec_be32(v),
    ensures
        spec_read_be32(s, off) == v,
{
    assert(s[off] == spec_be32(v)[0]);
    assert(s[off + 1] == spec_be32(v)[1]);
    assert(s[off + 2] == spec_be32(v)[2]);
    assert(s[off + 3] == spec_be32(v)[3]);
}

/// Appends the big-endian bytes of `v`.
pub fn push_be32(out: &mut Vec<u8>, v: u32)
    ensures
        final(out)@ == old(out)@ + spec_be32(v),
{
    out.push((v >> 24u32) as u8);
    out.push(((v >> 16u32) & 0xFFu32) as u8);
    out.push(((v >> 8u32) & 0xFFu32) as u8);
    out.push((v & 0xFFu32) as u8);
    assert((v >> 24u32) == v / 0x100_0000) by (bit_vector);
    assert(((v >> 16u32) & 0xFFu32) == (v / 0x1_0000) % 256) by (bit_vector);
    assert(((v >> 8u32) & 0xFFu32) == (v / 256) % 256) by (bit_vector);
    assert((v & 0xFFu32) == v % 256) by (bit_vector);
    assert(final(out)@ =~= old(out)@ + spec_be32(v));
}

/// Appends the big-endian bytes of `v`.
pub fn push_be16(out: &mut Vec<u8>, v: u16)
    ensures
        final(out)@ == old(out)@ + spec_be16(v),
{
    out.push((v >> 8u16) as u8);
    out.push((v & 0xFFu16) as u8);
    assert((v >> 8u16) == v / 256) by (bit_vector);
    assert((v & 0xFFu16) == v % 256) by (bit_vector);
    assert(final(out)@ =~= old(out)@ + spec_be16(v));
}

/// The big-endian 32-bit value at `off`.
pub fn read_be32(data: &[u8], off: usize) -> (res: u32)
    requires
        off + 4 <= data@.len(),
    ensures
        res == spec_read_be32(data@, off as int),
{
    let b0 = data[off] as u32;
    let b1 = data[off + 1] as u32;
    let b2 = data[off + 2] as u32;
    let b3 = data[off + 3] as u32;
    let res = (b0 << 24u32) | (b1 << 16u32) | (b2 << 8u32) | b3;
    assert(res == b0 * 0x100_0000 + b1 * 0x1_0000 + b2 * 256 + b3) by (bit_vector)
        requires b0 < 256, b1 < 256, b2 < 256, b3 < 256, res == (b0 << 24u32) | (b1 << 16u32) | (b2 << 8u32) | b3;
    res
}

/// The stereo sample pair `i` of 16-bit little-endian PCM `data`.
pub fn sample_pair(data: &[u8], i: usize) -> (res: (i16, i16))
    requires
        4 * i + 3 <= usize::MAX,
    ensures
        res == spec_sample_pair(data@, i as int),
{
    let offset = i * 4;
    let b0 = if offset < data.len() { data[offset] } else { 0 };
    let b1 = if offset + 1 < data.len() { data[offset + 1] } else { 0 };
    let b2 = if offset + 2 < data.len() { data[offset + 2] } else { 0 };
    let b3 = if offset + 3 < data.len() { data[offset + 3] } else { 0 };
    let l_sample = (((b1 as u16) << 8u16) | (b0 as u16)) as i16;
    let r_sample = (((b3 as u16) << 8u16) | (b2 as u16)) as i16;
    proof {
        lemma_le_i16(b0, b1, l_sample);
        lemma_le_i16(b2, b3, r_sample);
    }
    (l_sample, r_sample)
}

proof fn lemma_le_i16(lo: u8, hi: u8, x: i16)
    requires
        x == (((hi as u16) << 8u16) | (lo as u16)) as i16,
    ensures
        x == le_i16(lo, hi),
{
    let u = ((hi as u16) << 8u16) | (lo as u16);
    assert(u == hi as u16 * 256 + lo as u16) by (bit_vector)
        requires u == ((hi as u16) << 8u16) | (lo as u16);
    assert(x == (if u >= 32768 { u - 65536 } else { u as int }) as i16) by (bit_vector)
        requires x == u as i16;
}

/// Mid/side values of the stereo sample pair `i` of `data`.
pub fn ms_pair(data: &[u8], i: usize) -> (res: (i16, i16))
    requires
        4 * i + 3 <= usize::MAX,
    ensures
        res == spec_ms_pair(data@, i as int),
{
    let (l, r) = sample_pair(data, i);
    lr_to_ms(l, r)
}

/// Low byte of `x`.
pub fn low_byte_of(x: i16) -> (res: u8)
    ensures
        res == low_byte(x),
{
    let u = x as u16;
    let res = (u & 0xFFu16) as u8;
    assert(u == (if x < 0 { x + 65536 } else { x as int })) by (bit_vector)
        requires u == x as u16;
    assert((u & 0xFFu16) == u % 256) by (bit_vector);
    res
}

/// High byte of `x`.
pub fn high_byte_of(x: i16) -> (res: u8)
    ensures
        res == high_byte(x),
{
    let u = x as u16;
    let res = (u >> 8u16) as u8;
    assert(u == (if x < 0 { x + 65536 } else { x as int })) by (bit_vector)
        requires u == x as u16;
    assert((u >> 8u16) == u / 256) by (bit_vector);
    res
}

/// Writing the PCM bytes of a sample pair read from `data` gives back the bytes of `data`.
pub proof fn lemma_pcm_roundtrip(data: Seq<u8>, i: int, k: int)
    requires
        0 <= k < 4,
        0 <= 4 * i + k < data.len(),
    ensures
        ({
            let (m, s) = spec_ms_pair(data, i);
            ms_pcm_byte(m, s, k)
        }) == data[4 * i + k],
{
    let (l, r) = spec_sample_pair(data, i);
    crate::stereo::lemma_ms_roundtrip(l, r);
    let b0 = byte_or_zero(data, 4 * i);
    let b1 = byte_or_zero(data, 4 * i + 1);
    let b2 = byte_or_zero(data, 4 * i + 2);
    let b3 = byte_or_zero(data, 4 * i + 3);
    lemma_bytes_of_le_i16(b0, b1);
    lemma_bytes_of_le_i16(b2, b3);
}

proof fn lemma_bytes_of_le_i16(lo: u8, hi: u8)
    ensures
        low_byte(le_i16(lo, hi)) == lo,
        high_byte(le_i16(lo, hi)) == hi,
{
}

} // verus!
