use vstd::prelude::*;
use vstd::wrapping::i16_specs;

use crate::bijection::{spec_gray_of, spec_zigzag_encode};
use crate::stereo::spec_lr_to_ms;
use crate::grid_codec::{lemma_cell, transform_grid, GridTransform};
use crate::lifting_i64::{edge_update, even_samples, lifting_details, odd_samples, spec_forward_lifting_53_i64};
use crate::lifting::{
    evens, lemma_dyadic_lengths, lemma_packet_lengths, odds, spec_forward_dyadic, spec_forward_packet,
    spec_forward_step, spec_predict, spec_update, LiftingFilter,
};

verus! {

/// Position `k` of a row of `n` values, reflected back into the row at both
/// ends (about `-1/2` and `n - 1/2`) and kept inside it.
pub open spec fn reflect(n: int, k: int) -> int {
    if k >= n {
        let j = 2 * n - 1 - k;
        if j < 0 { 0 } else { j }
    } else if k < 0 {
        let j = -1 - k;
        if j > n - 1 { n - 1 } else { j }
    } else {
        k
    }
}

/// Even sample number `k` of `s` (the sample at position `2 k`), reflected
/// at the ends of the `s.len() / 2` even samples.
pub open spec fn even_at(s: Seq<i16>, k: int) -> int {
    s[2 * reflect((s.len() / 2) as int, k)] as int
}

/// Quotient of `x` by a positive `d`, rounded toward zero.
pub open spec fn quot(x: int, d: int) -> int {
    if x < 0 { 0 - (0 - x) / d } else { x / d }
}

/// The value that one lifting level subtracts from odd sample `2 i + 1` of
/// `s`: the interpolating predictors of order 0, 1 and above (taps
/// `(1, 1) / 2`, `(-1, 9, 9, -1) / 16`, `(3, -25, 150, 150, -25, 3) / 256`,
/// rounded toward zero), or for CDF 5/3 the floor of the mean of the even
/// neighbours, the last one repeated past the end.
pub open spec fn predicted_odd(f: LiftingFilter, s: Seq<i16>, i: int) -> int {
    match f {
        LiftingFilter::Interpolating(order) => {
            let near = even_at(s, i) + even_at(s, i + 1);
            let mid = even_at(s, i - 1) + even_at(s, i + 2);
            let far = even_at(s, i - 2) + even_at(s, i + 3);
            if order == 0 {
                quot(near, 2)
            } else if order == 1 {
                quot(9 * near - mid + 8, 16)
            } else {
                quot(150 * near - 25 * mid + 3 * far + 128, 256)
            }
        },
        LiftingFilter::Cdf53 => {
            let right = if 2 * i + 2 < 2 * (s.len() / 2) { s[2 * i + 2] } else { s[2 * i] };
            (s[2 * i] as int + right as int) / 2
        },
    }
}

/// The value that one lifting level adds to an even sample from the details
/// `before` and `at` on either side of it: the rounded quarter of their sum
/// plus 2 (toward zero for the interpolating filters, floor for CDF 5/3).
pub open spec fn update_of(f: LiftingFilter, before: int, at: int) -> int {
    match f {
        LiftingFilter::Interpolating(_) => quot(before + at + 2, 4),
        LiftingFilter::Cdf53 => (before + at + 2) / 4,
    }
}

/// An arithmetic shift right of a small `i32` by 1 or 2 is the floor of its
/// half or quarter.
pub proof fn lemma_shift_is_floor(x: i32)
    requires
        -0x10_0000 <= x <= 0x10_0000,
    ensures
        (x >> 1u32) as int == (x as int) / 2,
        (x >> 2u32) as int == (x as int) / 4,
{
    assert(2 * (x >> 1u32) <= x && x <= 2 * (x >> 1u32) + 1) by (bit_vector)
        requires
            -0x10_0000 <= x <= 0x10_0000,
    ;
    assert(4 * (x >> 2u32) <= x && x <= 4 * (x >> 2u32) + 3) by (bit_vector)
        requires
            -0x10_0000 <= x <= 0x10_0000,
    ;
}

/// One lifting level in closed form: detail `i` is odd sample `2 i + 1`
/// minus its prediction from the even samples, approximation `i` is even
/// sample `2 i` plus the update from details `i - 1` (detail 0 at the start)
/// and `i`, both in wrapping 16-bit arithmetic; a last sample of odd-length
/// input stays in place.
pub proof fn lemma_forward_step_closed_form(f: LiftingFilter, s: Seq<i16>)
    requires
        s.len() >= 2,
    ensures
        ({
            let t = spec_forward_step(f, s);
            let half = s.len() / 2;
            &&& t.len() == s.len()
            &&& forall|i: int|
                0 <= i < half ==> #[trigger] t[half + i] == i16_specs::wrapping_sub(
                    s[2 * i + 1],
                    predicted_odd(f, s, i) as i16,
                )
            &&& forall|i: int|
                0 <= i < half ==> #[trigger] t[i] == i16_specs::wrapping_add(
                    s[2 * i],
                    update_of(f, t[half + if i == 0 { 0 } else { i - 1 }] as int, t[half + i] as int) as i16,
                )
            &&& s.len() % 2 == 1 ==> t[s.len() - 1] == s[s.len() - 1]
        }),
{
    reveal(spec_predict);
    reveal(spec_update);
    let t = spec_forward_step(f, s);
    let half = s.len() / 2;
    let e = evens(s);
    let o = odds(s);
    assert forall|i: int| 0 <= i < half implies #[trigger] t[half + i] == i16_specs::wrapping_sub(
        s[2 * i + 1],
        predicted_odd(f, s, i) as i16,
    ) by {
        assert(spec_predict(f, e, i) == predicted_odd(f, s, i)) by {
            match f {
                LiftingFilter::Cdf53 => {
                    let left = e[i] as i32;
                    let right = if i + 1 < e.len() { e[i + 1] as i32 } else { e[i] as i32 };
                    lemma_shift_is_floor((left + right) as i32);
                },
                LiftingFilter::Interpolating(order) => {
                    assert forall|k: int| #![auto] crate::lifting::spec_get_even(e, k) == even_at(s, k) by {}
                },
            }
        }
    }
    assert forall|i: int| 0 <= i < half implies #[trigger] t[i] == i16_specs::wrapping_add(
        s[2 * i],
        update_of(f, t[half + if i == 0 { 0 } else { i - 1 }] as int, t[half + i] as int) as i16,
    ) by {
        let d = crate::lifting::predicted_details(f, e, o);
        let j = if i == 0 { 0 } else { i - 1 };
        assert(t[half + j] == d[j] && t[half + i] == d[i]);
        assert(spec_update(f, d, i) == update_of(f, d[j] as int, d[i] as int)) by {
            match f {
                LiftingFilter::Cdf53 => {
                    lemma_shift_is_floor((d[j] as i32 + d[i] as i32 + 2) as i32);
                },
                LiftingFilter::Interpolating(_) => {},
            }
        }
    }
}

/// One CDF 5/3 level of 64-bit samples in closed form, with `half_e` even and
/// `half_o` odd positions: detail `n` is odd sample `2 n + 1` minus the floor
/// of the mean of even samples `n` and `n + 1` (the last even sample repeated
/// past the end), approximation `n` is even sample `2 n` plus the floor of a
/// quarter of details `n - 1` and `n` plus 2 (detail 0 at the start, the last
/// detail past the end), all in wrapping 16-bit arithmetic.
pub proof fn lemma_forward_lifting_53_i64_closed_form(x: Seq<i64>)
    requires
        x.len() >= 2,
    ensures
        ({
            let (s, d) = spec_forward_lifting_53_i64(x);
            let half_e = (x.len() + 1) / 2;
            let half_o = x.len() / 2;
            &&& s.len() == half_e
            &&& d.len() == half_o
            &&& forall|n: int|
                0 <= n < half_o ==> #[trigger] d[n] == i16_specs::wrapping_sub(
                    x[2 * n + 1] as i16,
                    (((x[2 * n] as i16) as int + (if n + 1 < half_e { x[2 * n + 2] as i16 } else {
                        x[2 * n] as i16
                    }) as int) / 2) as i16,
                ) as i64
            &&& forall|n: int|
                0 <= n < half_e ==> #[trigger] s[n] == i16_specs::wrapping_add(
                    x[2 * n] as i16,
                    (((d[if n == 0 { 0 } else { n - 1 }] as int) + (d[if n < half_o { n } else { n - 1 }] as int)
                        + 2) / 4) as i16,
                ) as i64
        }),
{
    reveal(spec_predict);
    let e = even_samples(x);
    let o = odd_samples(x);
    let dd = lifting_details(e, o);
    let half_e = (x.len() + 1) / 2;
    let half_o = x.len() / 2;
    let (s, d) = spec_forward_lifting_53_i64(x);
    assert forall|n: int| 0 <= n < half_o implies #[trigger] d[n] == i16_specs::wrapping_sub(
        x[2 * n + 1] as i16,
        (((x[2 * n] as i16) as int + (if n + 1 < half_e { x[2 * n + 2] as i16 } else { x[2 * n] as i16 }) as int)
            / 2) as i16,
    ) as i64 by {
        let left = e[n] as i32;
        let right = if n + 1 < e.len() { e[n + 1] as i32 } else { e[n] as i32 };
        lemma_shift_is_floor((left + right) as i32);
    }
    assert forall|n: int| 0 <= n < half_e implies #[trigger] s[n] == i16_specs::wrapping_add(
        x[2 * n] as i16,
        (((d[if n == 0 { 0 } else { n - 1 }] as int) + (d[if n < half_o { n } else { n - 1 }] as int) + 2) / 4)
            as i16,
    ) as i64 by {
        let left = if n > 0 { dd[n - 1] as i32 } else { dd[n] as i32 };
        let right = if n < dd.len() { dd[n] as i32 } else { dd[n - 1] as i32 };
        lemma_shift_is_floor((left + right + 2) as i32);
        assert(edge_update(dd, n) == (left as int + right as int + 2) / 4);
    }
}

/// A constant signal of a non-negative 16-bit value passes one lifting level
/// unchanged in its approximations, with every detail zero: each predictor's
/// taps sum to its divisor, and the update of zero details is zero.
pub proof fn lemma_constant_step(f: LiftingFilter, s: Seq<i16>, c: i16)
    requires
        s.len() >= 2,
        0 <= c,
        forall|k: int| 0 <= k < s.len() ==> s[k] == c,
    ensures
        ({
            let t = spec_forward_step(f, s);
            let half = s.len() / 2;
            &&& t.len() == s.len()
            &&& forall|k: int| 0 <= k < half ==> t[k] == c
            &&& forall|k: int| half <= k < 2 * half ==> t[k] == 0
            &&& forall|k: int| 2 * half <= k < s.len() ==> t[k] == c
        }),
{
    lemma_forward_step_closed_form(f, s);
    let t = spec_forward_step(f, s);
    let half = s.len() / 2;
    assert forall|i: int| 0 <= i < half implies predicted_odd(f, s, i) == c as int by {
        assert forall|k: int| #![auto] even_at(s, k) == c as int by {
            assert(0 <= reflect(half as int, k) < half);
        }
    }
    assert forall|k: int| half <= k < 2 * half implies t[k] == 0 by {
        assert(t[half + (k - half)] == i16_specs::wrapping_sub(s[2 * (k - half) + 1], predicted_odd(f, s, k - half) as i16));
    }
    assert forall|k: int| 0 <= k < half implies t[k] == c by {
        let j = if k == 0 { 0 } else { k - 1 };
        assert(t[half + j] == 0 && t[half + k] == 0);
        assert(update_of(f, 0, 0) == 0);
    }
}

/// A constant signal of a non-negative 16-bit value keeps its value in the
/// first coefficient of the dyadic decomposition at any depth, and every
/// other coefficient is that value or zero.
pub proof fn lemma_constant_dyadic(f: LiftingFilter, s: Seq<i16>, c: i16, depth: nat)
    requires
        0 <= c,
        forall|k: int| 0 <= k < s.len() ==> s[k] == c,
    ensures
        spec_forward_dyadic(f, s, depth).len() == s.len(),
        forall|k: int|
            0 <= k < s.len() ==> #[trigger] spec_forward_dyadic(f, s, depth)[k] == c
                || spec_forward_dyadic(f, s, depth)[k] == 0,
        s.len() >= 1 ==> spec_forward_dyadic(f, s, depth)[0] == c,
    decreases depth,
{
    lemma_dyadic_lengths(f, s, depth);
    if depth > 0 && s.len() >= 2 {
        let t = spec_forward_step(f, s);
        let half = s.len() / 2;
        lemma_constant_step(f, s, c);
        let low = t.subrange(0, half as int);
        lemma_constant_dyadic(f, low, c, (depth - 1) as nat);
        let r = spec_forward_dyadic(f, s, depth);
        assert(r == spec_forward_dyadic(f, low, (depth - 1) as nat) + t.subrange(half as int, s.len() as int));
    }
}

/// Column `c` of a row-major grid `w` wide and `h` high.
pub open spec fn grid_column(g: Seq<i16>, w: int, h: int, c: int) -> Seq<i16> {
    Seq::new(h as nat, |r: int| g[r * w + c])
}

/// The dyadic decomposition decomposes only the approximations further: at
/// every depth from 1 on, its second half holds the details of one level.
pub proof fn lemma_dyadic_keeps_details(f: LiftingFilter, s: Seq<i16>, depth: nat, k: int)
    requires
        depth >= 1,
        s.len() >= 2,
        s.len() / 2 <= k < s.len(),
    ensures
        spec_forward_dyadic(f, s, depth)[k] == spec_forward_step(f, s)[k],
{
    let t = spec_forward_step(f, s);
    let half = s.len() / 2;
    lemma_dyadic_lengths(f, t.subrange(0, half as int), (depth - 1) as nat);
}

/// The column transforms of the dyadic grid packing: from depth 1 on, row
/// `h / 2 + i` of each column holds exactly the one-level detail of the
/// column, odd sample `2 i + 1` minus its interpolating prediction.
pub proof fn lemma_dyadic_grid_details(wt: u32, g: Seq<i16>, w: int, h: int, depth: nat, r: int, c: int)
    requires
        w >= 1,
        h >= 2,
        g.len() == w * h,
        depth >= 1,
        h / 2 <= r < 2 * (h / 2),
        0 <= c < w,
    ensures
        transform_grid(GridTransform::Dyadic(wt), g, w, h, depth, true)[r * w + c] == i16_specs::wrapping_sub(
            g[(2 * (r - h / 2) + 1) * w + c],
            predicted_odd(LiftingFilter::Interpolating(wt), grid_column(g, w, h, c), r - h / 2) as i16,
        ),
{
    lemma_grid_details(GridTransform::Dyadic(wt), LiftingFilter::Interpolating(wt), g, w, h, depth, r, c);
}

/// The column transforms of the CDF 5/3 grid packing: from depth 1 on, row
/// `h / 2 + i` of each column holds exactly the one-level detail of the
/// column, odd sample `2 i + 1` minus the floor mean of its even neighbours.
pub proof fn lemma_lifting_grid_details(g: Seq<i16>, w: int, h: int, depth: nat, r: int, c: int)
    requires
        w >= 1,
        h >= 2,
        g.len() == w * h,
        depth >= 1,
        h / 2 <= r < 2 * (h / 2),
        0 <= c < w,
    ensures
        transform_grid(GridTransform::Lifting53, g, w, h, depth, true)[r * w + c] == i16_specs::wrapping_sub(
            g[(2 * (r - h / 2) + 1) * w + c],
            predicted_odd(LiftingFilter::Cdf53, grid_column(g, w, h, c), r - h / 2) as i16,
        ),
{
    lemma_grid_details(GridTransform::Lifting53, LiftingFilter::Cdf53, g, w, h, depth, r, c);
}

proof fn lemma_grid_details(
    t: GridTransform,
    f: LiftingFilter,
    g: Seq<i16>,
    w: int,
    h: int,
    depth: nat,
    r: int,
    c: int,
)
    requires
        t is Dyadic || t is Lifting53,
        t is Dyadic ==> f == LiftingFilter::Interpolating(t->Dyadic_0),
        t is Lifting53 ==> f == LiftingFilter::Cdf53,
        w >= 1,
        h >= 2,
        g.len() == w * h,
        depth >= 1,
        h / 2 <= r < 2 * (h / 2),
        0 <= c < w,
    ensures
        transform_grid(t, g, w, h, depth, true)[r * w + c] == i16_specs::wrapping_sub(
            g[(2 * (r - h / 2) + 1) * w + c],
            predicted_odd(f, grid_column(g, w, h, c), r - h / 2) as i16,
        ),
{
    lemma_cell(r, c, w, h);
    let col = grid_column(g, w, h, c);
    assert(crate::grid_codec::column(g, w, h, c) =~= col);
    lemma_dyadic_keeps_details(f, col, depth, r);
    lemma_forward_step_closed_form(f, col);
    let i = r - h / 2;
    assert(spec_forward_step(f, col)[h / 2 + i] == i16_specs::wrapping_sub(col[2 * i + 1], predicted_odd(f, col, i) as i16));
    lemma_cell(2 * i + 1, c, w, h);
}

/// The wavelet packet decomposition decomposes both halves of each level
/// further: at depth `d + 1` its first and second halves are the depth-`d`
/// packet decompositions of the approximations and of the details of one
/// level.
pub proof fn lemma_packet_splits_both_halves(f: LiftingFilter, s: Seq<i16>, depth: nat)
    requires
        s.len() >= 2,
    ensures
        ({
            let t = spec_forward_step(f, s);
            let half = s.len() / 2;
            let p = spec_forward_packet(f, s, depth + 1);
            &&& p.subrange(0, half as int) == spec_forward_packet(f, t.subrange(0, half as int), depth)
            &&& p.subrange(half as int, s.len() as int) == spec_forward_packet(
                f,
                t.subrange(half as int, s.len() as int),
                depth,
            )
        }),
{
    let t = spec_forward_step(f, s);
    let half = s.len() / 2;
    lemma_packet_lengths(f, t.subrange(0, half as int), depth);
    lemma_packet_lengths(f, t.subrange(half as int, s.len() as int), depth);
    let a = spec_forward_packet(f, t.subrange(0, half as int), depth);
    let b = spec_forward_packet(f, t.subrange(half as int, s.len() as int), depth);
    let p = spec_forward_packet(f, s, depth + 1);
    assert(p == a + b);
    assert(p.subrange(0, half as int) =~= a);
    assert(p.subrange(half as int, s.len() as int) =~= b);
}

/// The Gray codes of consecutive words differ in exactly one bit.
pub proof fn lemma_gray_one_bit_apart(u: u32)
    requires
        u < u32::MAX,
    ensures
        ({
            let x = spec_gray_of(u) ^ spec_gray_of((u + 1) as u32);
            x != 0 && x & ((x - 1) as u32) == 0
        }),
{
    let v = (u + 1) as u32;
    assert(((u ^ (u >> 1u32)) ^ (v ^ (v >> 1u32))) != 0 && ((u ^ (u >> 1u32)) ^ (v ^ (v >> 1u32))) & ((((u ^ (u
        >> 1u32)) ^ (v ^ (v >> 1u32))) - 1) as u32) == 0) by (bit_vector)
        requires
            u < 0xffff_ffffu32,
            v == u + 1,
    ;
}

/// ZigZag codes interleave the signed values by magnitude: 0, -1, 1, -2,
/// 2, ... take the codes 0, 1, 2, 3, 4, ...
pub proof fn lemma_zigzag_interleaves(v: i32)
    requires
        0 <= v < i32::MAX,
    ensures
        spec_zigzag_encode(0) == 0,
        spec_zigzag_encode((-v - 1) as i32) == spec_zigzag_encode(v) + 1,
        spec_zigzag_encode((v + 1) as i32) == spec_zigzag_encode((-v - 1) as i32) + 1,
{
}

/// The mid/side transform of a pair whose difference fits 16 bits: the side
/// is the difference and the mid the floor of the mean.
pub proof fn lemma_mid_is_floor_mean(l: i16, r: i16)
    requires
        i16::MIN <= l - r <= i16::MAX,
    ensures
        spec_lr_to_ms(l, r).1 == l - r,
        spec_lr_to_ms(l, r).0 == (l + r) / 2,
{
    let s = (l - r) as i16;
    assert(2 * (s >> 1u32) <= s && s <= 2 * (s >> 1u32) + 1) by (bit_vector);
}

} // verus!
