use vstd::prelude::*;
use vstd::wrapping::i16_specs;

verus! {

/// Mid/side value of a left/right sample pair: `s = l - r` and
/// `m = r + (s >> 1)`, both in wrapping 16-bit arithmetic.
pub open spec fn spec_lr_to_ms(l: i16, r: i16) -> (i16, i16) {
    let s = i16_specs::wrapping_sub(l, r);
    let m = i16_specs::wrapping_add(r, s >> 1u32);
    (m, s)
}

/// Left/right pair of a mid/side pair: `r = m - (s >> 1)` and `l = s + r`,
/// both in wrapping 16-bit arithmetic.
pub open spec fn spec_ms_to_lr(m: i16, s: i16) -> (i16, i16) {
    let r = i16_specs::wrapping_sub(m, s >> 1u32);
    let l = i16_specs::wrapping_add(s, r);
    (l, r)
}

/// Reversible mid/side transform of a stereo sample pair.
pub fn lr_to_ms(l: i16, r: i16) -> (res: (i16, i16))
    ensures
        res == spec_lr_to_ms(l, r),
{
    let s = l.wrapping_sub(r);
    let m = r.wrapping_add(s >> 1u32);
    (m, s)
}

/// Inverse of [`lr_to_ms`].
pub fn ms_to_lr(m: i16, s: i16) -> (res: (i16, i16))
    ensures
        res == spec_ms_to_lr(m, s),
{
    let r = m.wrapping_sub(s >> 1u32);
    let l = s.wrapping_add(r);
    (l, r)
}

/// Decoding the mid/side pair of a left/right pair gives that left/right pair back.
pub proof fn lemma_ms_roundtrip(l: i16, r: i16)
    ensures
        spec_ms_to_lr(spec_lr_to_ms(l, r).0, spec_lr_to_ms(l, r).1) == (l, r),
{
}

/// Encoding the left/right pair of a mid/side pair gives that mid/side pair back.
pub proof fn lemma_lr_roundtrip(m: i16, s: i16)
    ensures
        spec_lr_to_ms(spec_ms_to_lr(m, s).0, spec_ms_to_lr(m, s).1) == (m, s),
{
}

} // verus!
