use vstd::prelude::*;

verus! {

/// ZigZag code of a signed integer: `0, -1, 1, -2, 2, ...` map to `0, 1, 2, 3, 4, ...`.
pub open spec fn spec_zigzag_encode(val: i32) -> u32 {
    if val >= 0 {
        (2 * val) as u32
    } else {
        (-2 * val - 1) as u32
    }
}

/// Inverse of [`spec_zigzag_encode`]: even codes are non-negative, odd codes negative.
pub open spec fn spec_zigzag_decode(val: u32) -> i32 {
    if val % 2 == 0 {
        (val / 2) as i32
    } else {
        (-(val / 2) - 1) as i32
    }
}

/// ZigZag encoding, mapping small magnitudes to small codes.
pub fn zigzag_encode(val: i32) -> (res: u32)
    ensures
        res == spec_zigzag_encode(val),
{
    let res = ((val << 1u32) ^ (val >> 31u32)) as u32;
    assert(res == (if val >= 0 { (2 * val) as u32 } else { (-2 * val - 1) as u32 })) by (bit_vector)
        requires res == ((val << 1u32) ^ (val >> 31u32)) as u32;
    res
}

/// Inverse of [`zigzag_encode`].
pub fn zigzag_decode(val: u32) -> (res: i32)
    ensures
        res == spec_zigzag_decode(val),
{
    assert(val & 1u32 <= 1) by (bit_vector);
    let low = (val & 1u32) as i32;
    let neg = -low;
    let res = ((val >> 1u32) as i32) ^ neg;
    assert(res == (if val % 2 == 0 { (val / 2) as i32 } else { (-(val / 2) - 1) as i32 })) by (bit_vector)
        requires low == (val & 1u32) as i32, neg == -low, res == ((val >> 1u32) as i32) ^ neg;
    res
}

/// Decoding a ZigZag code gives back the integer it was made from.
pub proof fn lemma_zigzag_decode_encode(val: i32)
    ensures
        spec_zigzag_decode(spec_zigzag_encode(val)) == val,
{
}

/// Encoding a decoded ZigZag code gives back the code.
pub proof fn lemma_zigzag_encode_decode(val: u32)
    ensures
        spec_zigzag_encode(spec_zigzag_decode(val)) == val,
{
}

/// Reflected binary (Gray) code of a word.
pub open spec fn spec_gray_of(u: u32) -> u32 {
    u ^ (u >> 1u32)
}

/// Binary word of a Gray code: the exclusive or of all its right shifts.
pub open spec fn spec_binary_of_gray(g: u32) -> u32 {
    g ^ (g >> 1u32) ^ (g >> 2u32) ^ (g >> 3u32) ^ (g >> 4u32) ^ (g >> 5u32) ^ (g >> 6u32)
        ^ (g >> 7u32) ^ (g >> 8u32) ^ (g >> 9u32) ^ (g >> 10u32) ^ (g >> 11u32) ^ (g >> 12u32)
        ^ (g >> 13u32) ^ (g >> 14u32) ^ (g >> 15u32) ^ (g >> 16u32) ^ (g >> 17u32) ^ (g
        >> 18u32) ^ (g >> 19u32) ^ (g >> 20u32) ^ (g >> 21u32) ^ (g >> 22u32) ^ (g >> 23u32)
        ^ (g >> 24u32) ^ (g >> 25u32) ^ (g >> 26u32) ^ (g >> 27u32) ^ (g >> 28u32) ^ (g
        >> 29u32) ^ (g >> 30u32) ^ (g >> 31u32)
}

/// Exclusive or of the right shifts of `g` by `k` and more bits.
pub open spec fn xor_of_shifts_from(g: u32, k: u32) -> u32
    decreases 32 - k,
{
    if k >= 32 {
        0
    } else {
        (g >> k) ^ xor_of_shifts_from(g, (k + 1) as u32)
    }
}

/// Signed value carried by a Gray-coded ZigZag word.
pub open spec fn spec_gray_decode(val: u32) -> i32 {
    spec_zigzag_decode(spec_binary_of_gray(val))
}

/// Gray-coded ZigZag word of a signed value.
pub open spec fn spec_gray_encode(val: i32) -> u32 {
    spec_gray_of(spec_zigzag_encode(val))
}

/// Gray code of the ZigZag code of `val`.
pub fn gray_encode(val: i32) -> (res: u32)
    ensures
        res == spec_gray_encode(val),
{
    let u_val = zigzag_encode(val);
    u_val ^ (u_val >> 1u32)
}

proof fn lemma_shift_zero_stays_zero(g: u32, k: u32)
    requires
        k < 32,
        g >> k == 0,
    ensures
        forall|j: u32| k <= j < 32 ==> #[trigger] (g >> j) == 0,
{
    assert forall|j: u32| k <= j < 32 implies #[trigger] (g >> j) == 0 by {
        assert((g >> j) == 0) by (bit_vector)
            requires k <= j < 32, g >> k == 0;
    }
}

proof fn lemma_xor_from_zero(g: u32, k: u32)
    requires
        k <= 32,
        forall|j: u32| k <= j < 32 ==> #[trigger] (g >> j) == 0,
    ensures
        xor_of_shifts_from(g, k) == 0,
    decreases 32 - k,
{
    if k < 32 {
        lemma_xor_from_zero(g, (k + 1) as u32);
        assert(g >> k == 0);
        assert(0u32 ^ 0u32 == 0u32) by (bit_vector);
    }
}

proof fn lemma_xor_from_closed_form(g: u32)
    ensures
        xor_of_shifts_from(g, 0) == spec_binary_of_gray(g),
{
    assert(xor_of_shifts_from(g, 32) == 0);
    let x31 = xor_of_shifts_from(g, 31u32);
    assert(x31 == (g >> 31u32) ^ xor_of_shifts_from(g, 32u32));
    let x30 = xor_of_shifts_from(g, 30u32);
    assert(x30 == (g >> 30u32) ^ xor_of_shifts_from(g, 31u32));
    let x29 = xor_of_shifts_from(g, 29u32);
    assert(x29 == (g >> 29u32) ^ xor_of_shifts_from(g, 30u32));
    let x28 = xor_of_shifts_from(g, 28u32);
    assert(x28 == (g >> 28u32) ^ xor_of_shifts_from(g, 29u32));
    let x27 = xor_of_shifts_from(g, 27u32);
    assert(x27 == (g >> 27u32) ^ xor_of_shifts_from(g, 28u32));
    let x26 = xor_of_shifts_from(g, 26u32);
    assert(x26 == (g >> 26u32) ^ xor_of_shifts_from(g, 27u32));
    let x25 = xor_of_shifts_from(g, 25u32);
    assert(x25 == (g >> 25u32) ^ xor_of_shifts_from(g, 26u32));
    let x24 = xor_of_shifts_from(g, 24u32);
    assert(x24 == (g >> 24u32) ^ xor_of_shifts_from(g, 25u32));
    let x23 = xor_of_shifts_from(g, 23u32);
    assert(x23 == (g >> 23u32) ^ xor_of_shifts_from(g, 24u32));
    let x22 = xor_of_shifts_from(g, 22u32);
    assert(x22 == (g >> 22u32) ^ xor_of_shifts_from(g, 23u32));
    let x21 = xor_of_shifts_from(g, 21u32);
    assert(x21 == (g >> 21u32) ^ xor_of_shifts_from(g, 22u32));
    let x20 = xor_of_shifts_from(g, 20u32);
    assert(x20 == (g >> 20u32) ^ xor_of_shifts_from(g, 21u32));
    let x19 = xor_of_shifts_from(g, 19u32);
    assert(x19 == (g >> 19u32) ^ xor_of_shifts_from(g, 20u32));
    let x18 = xor_of_shifts_from(g, 18u32);
    assert(x18 == (g >> 18u32) ^ xor_of_shifts_from(g, 19u32));
    let x17 = xor_of_shifts_from(g, 17u32);
    assert(x17 == (g >> 17u32) ^ xor_of_shifts_from(g, 18u32));
    let x16 = xor_of_shifts_from(g, 16u32);
    assert(x16 == (g >> 16u32) ^ xor_of_shifts_from(g, 17u32));
    let x15 = xor_of_shifts_from(g, 15u32);
    assert(x15 == (g >> 15u32) ^ xor_of_shifts_from(g, 16u32));
    let x14 = xor_of_shifts_from(g, 14u32);
    assert(x14 == (g >> 14u32) ^ xor_of_shifts_from(g, 15u32));
    let x13 = xor_of_shifts_from(g, 13u32);
    assert(x13 == (g >> 13u32) ^ xor_of_shifts_from(g, 14u32));
    let x12 = xor_of_shifts_from(g, 12u32);
    assert(x12 == (g >> 12u32) ^ xor_of_shifts_from(g, 13u32));
    let x11 = xor_of_shifts_from(g, 11u32);
    assert(x11 == (g >> 11u32) ^ xor_of_shifts_from(g, 12u32));
    let x10 = xor_of_shifts_from(g, 10u32);
    assert(x10 == (g >> 10u32) ^ xor_of_shifts_from(g, 11u32));
    let x9 = xor_of_shifts_from(g, 9u32);
    assert(x9 == (g >> 9u32) ^ xor_of_shifts_from(g, 10u32));
    let x8 = xor_of_shifts_from(g, 8u32);
    assert(x8 == (g >> 8u32) ^ xor_of_shifts_from(g, 9u32));
    let x7 = xor_of_shifts_from(g, 7u32);
    assert(x7 == (g >> 7u32) ^ xor_of_shifts_from(g, 8u32));
    let x6 = xor_of_shifts_from(g, 6u32);
    assert(x6 == (g >> 6u32) ^ xor_of_shifts_from(g, 7u32));
    let x5 = xor_of_shifts_from(g, 5u32);
    assert(x5 == (g >> 5u32) ^ xor_of_shifts_from(g, 6u32));
    let x4 = xor_of_shifts_from(g, 4u32);
    assert(x4 == (g >> 4u32) ^ xor_of_shifts_from(g, 5u32));
    let x3 = xor_of_shifts_from(g, 3u32);
    assert(x3 == (g >> 3u32) ^ xor_of_shifts_from(g, 4u32));
    let x2 = xor_of_shifts_from(g, 2u32);
    assert(x2 == (g >> 2u32) ^ xor_of_shifts_from(g, 3u32));
    let x1 = xor_of_shifts_from(g, 1u32);
    assert(x1 == (g >> 1u32) ^ xor_of_shifts_from(g, 2u32));
    let x0 = xor_of_shifts_from(g, 0u32);
    assert(x0 == (g >> 0u32) ^ xor_of_shifts_from(g, 1u32));
    assert(x0 == spec_binary_of_gray(g)) by (bit_vector)
        requires x31 == (g >> 31u32) ^ 0u32, x0 == (g >> 0u32) ^ x1, x1 == (g >> 1u32) ^ x2, x2 == (g >> 2u32) ^ x3, x3 == (g >> 3u32) ^ x4, x4 == (g >> 4u32) ^ x5, x5 == (g >> 5u32) ^ x6, x6 == (g >> 6u32) ^ x7, x7 == (g >> 7u32) ^ x8, x8 == (g >> 8u32) ^ x9, x9 == (g >> 9u32) ^ x10, x10 == (g >> 10u32) ^ x11, x11 == (g >> 11u32) ^ x12, x12 == (g >> 12u32) ^ x13, x13 == (g >> 13u32) ^ x14, x14 == (g >> 14u32) ^ x15, x15 == (g >> 15u32) ^ x16, x16 == (g >> 16u32) ^ x17, x17 == (g >> 17u32) ^ x18, x18 == (g >> 18u32) ^ x19, x19 == (g >> 19u32) ^ x20, x20 == (g >> 20u32) ^ x21, x21 == (g >> 21u32) ^ x22, x22 == (g >> 22u32) ^ x23, x23 == (g >> 23u32) ^ x24, x24 == (g >> 24u32) ^ x25, x25 == (g >> 25u32) ^ x26, x26 == (g >> 26u32) ^ x27, x27 == (g >> 27u32) ^ x28, x28 == (g >> 28u32) ^ x29, x29 == (g >> 29u32) ^ x30, x30 == (g >> 30u32) ^ x31;
}

/// Signed value of a Gray-coded ZigZag word.
pub fn gray_decode(val: u32) -> (res: i32)
    ensures
        res == spec_gray_decode(val),
{
    let ghost g = val;
    let mut val = val;
    let mut mask = val >> 1u32;
    let ghost mut k: u32 = 1;
    assert(val == g >> 0u32) by (bit_vector)
        requires val == g;
    assert(xor_of_shifts_from(g, 0) == (g >> 0u32) ^ xor_of_shifts_from(g, 1));
    while mask != 0
        invariant
            1 <= k <= 32,
            mask == (if k < 32 { g >> k } else { 0 }),
            val ^ xor_of_shifts_from(g, k) == xor_of_shifts_from(g, 0),
        decreases 32 - k,
    {
        proof {
            assert(k < 32);
            assert(xor_of_shifts_from(g, k) == (g >> k) ^ xor_of_shifts_from(g, (k + 1) as u32));
            let v = val;
            let x = xor_of_shifts_from(g, (k + 1) as u32);
            let m = mask;
            assert((v ^ m) ^ x == v ^ (m ^ x)) by (bit_vector);
        }
        val = val ^ mask;
        let ghost old_mask = mask;
        mask = mask >> 1u32;
        proof {
            let kk = k;
            assert(mask == (if kk + 1 < 32 { g >> ((kk + 1) as u32) } else { 0 })) by (bit_vector)
                requires kk < 32, old_mask == g >> kk, mask == old_mask >> 1u32;
            k = (k + 1) as u32;
        }
    }
    proof {
        if k < 32 {
            lemma_shift_zero_stays_zero(g, k);
        }
        lemma_xor_from_zero(g, k);
        let v = val;
        assert(v ^ 0u32 == v) by (bit_vector);
        lemma_xor_from_closed_form(g);
    }
    zigzag_decode(val)
}

/// Decoding a Gray-coded word gives back the value it was made from.
pub proof fn lemma_gray_decode_encode(val: i32)
    ensures
        spec_gray_decode(spec_gray_encode(val)) == val,
{
    let z = spec_zigzag_encode(val);
    let g = z ^ (z >> 1u32);
    assert(spec_binary_of_gray(g) == z) by (bit_vector)
        requires g == z ^ (z >> 1u32);
}

/// Encoding the value of a Gray-coded word gives back the word.
pub proof fn lemma_gray_encode_decode(val: u32)
    ensures
        spec_gray_encode(spec_gray_decode(val)) == val,
{
    let b = spec_binary_of_gray(val);
    assert(b ^ (b >> 1u32) == val) by (bit_vector)
        requires b == spec_binary_of_gray(val);
}

} // verus!
